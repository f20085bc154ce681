//! Path resolution confined to a content root.
//!
//! A client-supplied relative path is sanitized (leading slashes
//! stripped, empty paths and any `..` segment rejected), joined under the
//! root, and — after the caller has resolved symlinks through the real
//! filesystem — confirmed to still lie under the resolved root. The
//! confirmation is the authoritative check: the lexical join cannot see
//! through symlinks. Reading resolves the full path; writing resolves the
//! parent directory only (the target may not exist yet) and re-appends
//! the sanitized file name.
//!
//! Paths here are `/`-separated byte strings; turning them into host
//! paths, and every filesystem call, is the caller's part.

use vstd::prelude::*;
use crate::error::AppError;
use crate::text::{has_prefix, last_index_of, lemma_last_index_of_at, starts_with, subvec, SLASH};

verus! {

/// A `..` path segment stands at `i` in `s`: two dots bounded by the
/// string's ends or by separators.
pub open spec fn is_dotdot_seg(s: Seq<u8>, i: int) -> bool {
    &&& 0 <= i
    &&& i + 2 <= s.len()
    &&& s[i] == 46
    &&& s[i + 1] == 46
    &&& (i == 0 || s[i - 1] == SLASH)
    &&& (i + 2 == s.len() || s[i + 2] == SLASH)
}

/// Some segment of `s` is `..`.
pub open spec fn has_dotdot(s: Seq<u8>) -> bool {
    exists|i: int| is_dotdot_seg(s, i)
}

/// Number of leading separators of `s`.
pub open spec fn leading_slashes(s: Seq<u8>) -> int
    decreases s.len(),
{
    if s.len() > 0 && s[0] == SLASH {
        1 + leading_slashes(s.drop_first())
    } else {
        0
    }
}

pub proof fn lemma_leading_slashes(s: Seq<u8>)
    ensures
        0 <= leading_slashes(s) <= s.len(),
        forall|k: int| 0 <= k < leading_slashes(s) ==> s[k] == SLASH,
        leading_slashes(s) < s.len() ==> s[leading_slashes(s)] != SLASH,
    decreases s.len(),
{
    if s.len() > 0 && s[0] == SLASH {
        lemma_leading_slashes(s.drop_first());
        assert forall|k: int| 0 <= k < leading_slashes(s) implies s[k] == SLASH by {
            if k > 0 {
                assert(s.drop_first()[k - 1] == s[k]);
            }
        }
        if leading_slashes(s) < s.len() {
            assert(s[leading_slashes(s)] == s.drop_first()[leading_slashes(s.drop_first())]);
        }
    }
}

/// `s` with its leading separators removed.
pub open spec fn strip_slashes(s: Seq<u8>) -> Seq<u8> {
    s.skip(leading_slashes(s))
}

/// The sanitized form of a client-supplied relative path: leading
/// separators stripped; `None` when nothing remains or a `..` segment is
/// present.
pub open spec fn sanitize_spec(rel: Seq<u8>) -> Option<Seq<u8>> {
    let st = strip_slashes(rel);
    if st.len() == 0 || has_dotdot(st) {
        None
    } else {
        Some(st)
    }
}

/// `rel` placed under `root`, separated by one slash.
pub open spec fn join_under(root: Seq<u8>, rel: Seq<u8>) -> Seq<u8> {
    root + seq![SLASH] + rel
}

/// `p` lies under `root`: it is the root itself, or the root followed by
/// a separator. A prefix that ends inside a segment name does not count.
pub open spec fn within_root(root: Seq<u8>, p: Seq<u8>) -> bool {
    p == root || (p.len() > root.len() && p.subrange(0, root.len() as int) == root && p[
        root.len() as int
    ] == SLASH)
}

/// Stripping leading separators neither creates nor removes `..`
/// segments.
pub proof fn lemma_dotdot_strip(s: Seq<u8>)
    ensures
        has_dotdot(s) <==> has_dotdot(strip_slashes(s)),
{
    let n = leading_slashes(s);
    lemma_leading_slashes(s);
    let st = strip_slashes(s);
    if has_dotdot(s) {
        let i = choose|i: int| is_dotdot_seg(s, i);
        assert(s[i] == 46 && i >= n) by {
            if i < n {
                assert(s[i] == SLASH);
            }
        }
        assert(st[i - n] == s[i]);
        assert(st[i - n + 1] == s[i + 1]);
        if i - n > 0 {
            assert(st[i - n - 1] == s[i - 1]);
        }
        if i + 2 < s.len() {
            assert(st[i - n + 2] == s[i + 2]);
        }
        assert(is_dotdot_seg(st, i - n));
    }
    if has_dotdot(st) {
        let j = choose|j: int| is_dotdot_seg(st, j);
        let i = j + n;
        assert(s[i] == st[j]);
        assert(s[i + 1] == st[j + 1]);
        if j > 0 {
            assert(s[i - 1] == st[j - 1]);
        } else {
            if n > 0 {
                assert(s[n - 1] == SLASH);
            }
        }
        if j + 2 < st.len() {
            assert(s[i + 2] == st[j + 2]);
        }
        assert(is_dotdot_seg(s, i));
    }
}

/// Scan `s` for a `..` segment.
#[verifier::loop_isolation(false)]
pub fn contains_dotdot_segment(s: &[u8]) -> (r: bool)
    ensures
        r == has_dotdot(s@),
{
    if s.len() < 2 {
        assert(forall|i: int| !is_dotdot_seg(s@, i));
        return false;
    }
    let mut i: usize = 0;
    while i <= s.len() - 2
        invariant
            0 <= i <= s@.len() - 1,
            s@.len() >= 2,
            forall|j: int| 0 <= j < i ==> !is_dotdot_seg(s@, j),
        decreases s@.len() - i,
    {
        if s[i] == 46 && s[i + 1] == 46 && (i == 0 || s[i - 1] == SLASH) && (s.len() - i == 2 || s[i
            + 2] == SLASH) {
            assert(is_dotdot_seg(s@, i as int));
            return true;
        }
        assert(!is_dotdot_seg(s@, i as int));
        i += 1;
    }
    assert forall|j: int| 0 <= j implies !is_dotdot_seg(s@, j) by {
        if j < i {
        } else {
            assert(j + 2 > s@.len());
        }
    }
    false
}

/// Sanitize a client-supplied relative path: strip leading separators,
/// reject an empty remainder and any `..` segment with `NotFound`.
#[verifier::loop_isolation(false)]
pub fn sanitize_rel(rel: &[u8]) -> (r: Result<Vec<u8>, AppError>)
    ensures
        match r {
            Ok(st) => sanitize_spec(rel@) == Some(st@),
            Err(e) => e == AppError::NotFound && sanitize_spec(rel@) is None,
        },
{
    let mut a: usize = 0;
    while a < rel.len() && rel[a] == SLASH
        invariant
            a <= rel@.len(),
            forall|k: int| 0 <= k < a ==> rel@[k] == SLASH,
        decreases rel@.len() - a,
    {
        a += 1;
    }
    proof {
        lemma_leading_slashes_at(rel@, a as int);
    }
    let st = subvec(rel, a, rel.len());
    proof {
        assert(st@ =~= strip_slashes(rel@));
    }
    if st.len() == 0 {
        return Err(AppError::NotFound);
    }
    if contains_dotdot_segment(st.as_slice()) {
        return Err(AppError::NotFound);
    }
    Ok(st)
}

pub proof fn lemma_leading_slashes_at(s: Seq<u8>, i: int)
    requires
        0 <= i <= s.len(),
        forall|k: int| 0 <= k < i ==> s[k] == SLASH,
        i < s.len() ==> s[i] != SLASH,
    ensures
        leading_slashes(s) == i,
    decreases i,
{
    if i == 0 {
    } else {
        lemma_leading_slashes_at(s.drop_first(), i - 1);
    }
}

/// Prepare a read resolution: sanitize `rel` and join it under `root`.
/// The result is the lexical path the caller must resolve through the
/// filesystem and then hand to [`resolve_read_confirm`].
pub fn resolve_read_prepare(root: &[u8], rel: &[u8]) -> (r: Result<Vec<u8>, AppError>)
    ensures
        match r {
            Ok(j) => {
                &&& sanitize_spec(rel@) matches Some(st) && j@ == join_under(root@, st)
                &&& within_root(root@, j@)
            },
            Err(e) => e == AppError::NotFound && sanitize_spec(rel@) is None,
        },
{
    let st = match sanitize_rel(rel) {
        Ok(st) => st,
        Err(e) => {
            return Err(e);
        },
    };
    let mut j: Vec<u8> = Vec::new();
    crate::text::append(&mut j, root);
    j.push(SLASH);
    crate::text::append(&mut j, st.as_slice());
    proof {
        assert(j@ =~= join_under(root@, st@));
        assert(j@.subrange(0, root@.len() as int) =~= root@);
    }
    Ok(j)
}

/// Does `p` lie under `root`, at a segment boundary?
pub fn is_within_root(root: &[u8], p: &[u8]) -> (r: bool)
    ensures
        r == within_root(root@, p@),
{
    if p.len() == root.len() {
        crate::text::eq_bytes(p, root)
    } else if p.len() > root.len() {
        starts_with(p, root) && p[root.len()] == SLASH
    } else {
        proof {
            assert(p@.len() < root@.len());
        }
        false
    }
}

/// Confirm a read resolution: accept the symlink-resolved path exactly
/// when it still lies under the symlink-resolved root; everything else is
/// `NotFound`, indistinguishable from an absent file.
pub fn resolve_read_confirm(canonical_root: &[u8], canonical: &[u8]) -> (r: Result<
    Vec<u8>,
    AppError,
>)
    ensures
        within_root(canonical_root@, canonical@) ==> (r matches Ok(p) && p@ == canonical@),
        !within_root(canonical_root@, canonical@) ==> (r matches Err(e) && e
            == AppError::NotFound),
{
    let contained = is_within_root(canonical_root, canonical);
    if contained {
        Ok(subvec(canonical, 0, canonical.len()))
    } else {
        Err(AppError::NotFound)
    }
}

/// A write resolution before the filesystem is consulted: the lexical
/// parent directory to resolve and the file name to re-append afterwards.
pub struct WritePlan {
    pub parent: Vec<u8>,
    pub file_name: Vec<u8>,
}

/// Length of `s` once trailing separators are stripped.
pub open spec fn len_sans_trailing_slashes(s: Seq<u8>) -> int
    decreases s.len(),
{
    if s.len() > 0 && s.last() == SLASH {
        len_sans_trailing_slashes(s.drop_last())
    } else {
        s.len() as int
    }
}

pub proof fn lemma_trailing_slashes(s: Seq<u8>)
    ensures
        0 <= len_sans_trailing_slashes(s) <= s.len(),
        forall|k: int| len_sans_trailing_slashes(s) <= k < s.len() ==> s[k] == SLASH,
        len_sans_trailing_slashes(s) > 0 ==> s[len_sans_trailing_slashes(s) - 1] != SLASH,
    decreases s.len(),
{
    if s.len() > 0 && s.last() == SLASH {
        lemma_trailing_slashes(s.drop_last());
        assert forall|k: int| len_sans_trailing_slashes(s) <= k < s.len() implies s[k] == SLASH by {
            if k < s.len() - 1 {
                assert(s.drop_last()[k] == s[k]);
            }
        }
        if len_sans_trailing_slashes(s) > 0 {
            assert(s.drop_last()[len_sans_trailing_slashes(s) - 1] == s[len_sans_trailing_slashes(s)
                - 1]);
        }
    }
}

pub proof fn lemma_trailing_slashes_at(s: Seq<u8>, i: int)
    requires
        0 <= i <= s.len(),
        forall|k: int| i <= k < s.len() ==> s[k] == SLASH,
        i > 0 ==> s[i - 1] != SLASH,
    ensures
        len_sans_trailing_slashes(s) == i,
    decreases s.len() - i,
{
    if i == s.len() {
    } else {
        assert(s.last() == SLASH);
        lemma_trailing_slashes_at(s.drop_last(), i);
    }
}

/// The write plan for `rel` under `root`: `None` when sanitization fails
/// or nothing but separators remains; otherwise the lexical parent and
/// the final segment as file name.
pub open spec fn write_plan_spec(root: Seq<u8>, rel: Seq<u8>) -> Option<(Seq<u8>, Seq<u8>)> {
    match sanitize_spec(rel) {
        None => None,
        Some(st0) => {
            let st = st0.take(len_sans_trailing_slashes(st0));
            if st.len() == 0 {
                None
            } else {
                let k = last_index_of(st, SLASH);
                if k < 0 {
                    Some((root, st))
                } else {
                    Some((join_under(root, st.take(k)), st.skip(k + 1)))
                }
            }
        },
    }
}

/// Prepare a write resolution: sanitize `rel`, split off the file name,
/// and return the lexical parent for the caller to create (if needed) and
/// resolve, together with the name to re-append via
/// [`resolve_write_confirm`].
pub fn resolve_write_prepare(root: &[u8], rel: &[u8]) -> (r: Result<WritePlan, AppError>)
    ensures
        match r {
            Ok(plan) => {
                &&& write_plan_spec(root@, rel@) == Some((plan.parent@, plan.file_name@))
                &&& within_root(root@, plan.parent@)
                &&& plan.file_name@.len() > 0
                &&& forall|j: int| 0 <= j < plan.file_name@.len() ==> plan.file_name@[j] != SLASH
                &&& plan.file_name@ != seq![46u8, 46u8]
            },
            Err(e) => e == AppError::NotFound && write_plan_spec(root@, rel@) is None,
        },
{
    let st0 = match sanitize_rel(rel) {
        Ok(st) => st,
        Err(e) => {
            return Err(e);
        },
    };
    // strip trailing separators
    let mut b: usize = st0.len();
    while b > 0 && st0[b - 1] == SLASH
        invariant
            0 <= b <= st0@.len(),
            forall|k: int| b <= k < st0@.len() ==> st0@[k] == SLASH,
        decreases b,
    {
        b -= 1;
    }
    proof {
        lemma_trailing_slashes_at(st0@, b as int);
    }
    let st = subvec(st0.as_slice(), 0, b);
    proof {
        assert(st@ =~= st0@.take(b as int));
    }
    if st.len() == 0 {
        return Err(AppError::NotFound);
    }
    // find the last separator
    let mut k: usize = st.len();
    while k > 0 && st[k - 1] != SLASH
        invariant
            0 <= k <= st@.len(),
            forall|j: int| k <= j < st@.len() ==> st@[j] != SLASH,
        decreases k,
    {
        k -= 1;
    }
    proof {
        lemma_last_index_of_at(st@, SLASH, k as int - 1);
    }
    let ghost ks = k as int - 1;
    let file_name = subvec(st.as_slice(), k, st.len());
    proof {
        assert(file_name@ =~= st@.skip(ks + 1));
        assert(file_name@.len() > 0) by {
            lemma_trailing_slashes(st0@);
            assert(st@[st@.len() - 1] == st0@[b - 1]);
        }
        // the file name carries no separator: everything after the last one
        assert(forall|j: int| 0 <= j < file_name@.len() ==> file_name@[j] != SLASH);
        // and is not `..`: that would be a `..` segment of the sanitized path
        if file_name@ == seq![46u8, 46u8] {
            assert(st0@[ks + 1] == 46 && st0@[ks + 2] == 46) by {
                assert(file_name@[0] == st@[ks + 1] && st@[ks + 1] == st0@[ks + 1]);
                assert(file_name@[1] == st@[ks + 2] && st@[ks + 2] == st0@[ks + 2]);
            }
            assert(ks + 3 == st0@.len() || st0@[ks + 3] == SLASH) by {
                lemma_trailing_slashes(st0@);
            }
            if ks >= 0 {
                assert(st0@[ks] == st@[ks] && st@[ks] == SLASH);
            }
            assert(is_dotdot_seg(st0@, ks + 1));
            assert(false);
        }
    }
    if k == 0 {
        let parent = subvec(root, 0, root.len());
        proof {
            assert(parent@ =~= root@);
            assert(st@ =~= st@.skip(0));
            assert(write_plan_spec(root@, rel@) == Some((parent@, file_name@)));
        }
        Ok(WritePlan { parent, file_name })
    } else {
        let mut parent: Vec<u8> = Vec::new();
        crate::text::append(&mut parent, root);
        parent.push(SLASH);
        let dir = subvec(st.as_slice(), 0, k - 1);
        crate::text::append(&mut parent, dir.as_slice());
        proof {
            assert(dir@ =~= st@.take(ks));
            assert(parent@ =~= join_under(root@, st@.take(ks)));
            assert(parent@.subrange(0, root@.len() as int) =~= root@);
        }
        Ok(WritePlan { parent, file_name })
    }
}

/// Confirm a write resolution: once the parent has been symlink-resolved
/// and still lies under the resolved root, re-append the sanitized file
/// name; otherwise `NotFound`. The result stays under the root: the name
/// is a single plain segment.
pub fn resolve_write_confirm(
    canonical_root: &[u8],
    canonical_parent: &[u8],
    file_name: &[u8],
) -> (r: Result<Vec<u8>, AppError>)
    requires
        file_name@.len() > 0,
        forall|j: int| 0 <= j < file_name@.len() ==> file_name@[j] != SLASH,
        file_name@ != seq![46u8, 46u8],
    ensures
        within_root(canonical_root@, canonical_parent@) ==> (r matches Ok(p) && p@ == join_under(
            canonical_parent@,
            file_name@,
        ) && within_root(canonical_root@, p@)),
        !within_root(canonical_root@, canonical_parent@) ==> (r matches Err(e) && e
            == AppError::NotFound),
{
    match resolve_read_confirm(canonical_root, canonical_parent) {
        Err(e) => Err(e),
        Ok(parent) => {
            let mut p = parent;
            p.push(SLASH);
            crate::text::append(&mut p, file_name);
            proof {
                assert(p@ =~= join_under(canonical_parent@, file_name@));
                assert(p@.subrange(0, canonical_root@.len() as int) =~= canonical_root@) by {
                    assert(within_root(canonical_root@, canonical_parent@));
                    if canonical_parent@ == canonical_root@ {
                        assert(p@.subrange(0, canonical_root@.len() as int) =~= canonical_root@);
                    } else {
                        assert forall|m: int| 0 <= m < canonical_root@.len() implies p@[m]
                            == canonical_root@[m] by {
                            assert(p@[m] == canonical_parent@[m]);
                            assert(canonical_parent@.subrange(0, canonical_root@.len() as int)[m]
                                == canonical_parent@[m]);
                        }
                        assert(p@.subrange(0, canonical_root@.len() as int) =~= canonical_root@);
                    }
                }
                assert(p@[canonical_root@.len() as int] == SLASH) by {
                    if canonical_parent@ != canonical_root@ {
                        assert(p@[canonical_root@.len() as int] == canonical_parent@[
                            canonical_root@.len() as int
                        ]);
                    }
                }
            }
            Ok(p)
        },
    }
}

/// Every relative path containing a `..` segment is rejected by both
/// resolution variants, before any filesystem access: its sanitized form
/// does not exist, so neither a read path nor a write plan does.
pub proof fn lemma_dotdot_rejected(root: Seq<u8>, rel: Seq<u8>)
    requires
        has_dotdot(rel),
    ensures
        sanitize_spec(rel) is None,
        write_plan_spec(root, rel) is None,
{
    lemma_dotdot_strip(rel);
}

/// Write resolution never fails for want of the target itself: whenever
/// the path sanitizes and keeps a final segment, a write plan exists —
/// only the parent must then pass containment.
pub proof fn lemma_write_plan_available(root: Seq<u8>, rel: Seq<u8>)
    requires
        sanitize_spec(rel) is Some,
        len_sans_trailing_slashes(strip_slashes(rel)) > 0,
    ensures
        write_plan_spec(root, rel) is Some,
{
    let st0 = strip_slashes(rel);
    lemma_trailing_slashes(st0);
}

} // verus!
