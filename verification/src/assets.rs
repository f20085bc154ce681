//! Inherited asset lookup: the nearest shared stylesheet or cover image.
//!
//! From a resolved path's own directory up to the content root, each
//! ancestor is tried for a well-known filename (one name for the
//! stylesheet, a fixed list of image names for the cover). The walk is
//! pure: it yields the ordered candidate paths, nearest directory first;
//! the caller probes the filesystem and hands the answers back, and the
//! first existing candidate wins, as a root-relative URL.

use vstd::prelude::*;
use crate::resolve::{is_within_root, within_root};
use crate::text::{
    ascii_bytes, last_index_of, lemma_last_index_of, push_lit, rfind_byte, seq_views, subvec,
    SLASH,
};

verus! {

#[derive(Clone, Copy, Debug, PartialEq, Eq, Structural)]
pub enum AssetKind {
    Stylesheet,
    CoverImage,
}

/// The directory containing `p`: everything before its last separator,
/// or the empty path when it has none.
pub open spec fn parent_dir(p: Seq<u8>) -> Seq<u8> {
    let k = last_index_of(p, SLASH);
    if k >= 0 {
        p.take(k)
    } else {
        Seq::empty()
    }
}

/// The filenames tried per directory: one stylesheet name, or the cover
/// image name under each supported extension, in preference order.
pub open spec fn kind_names(kind: AssetKind) -> Seq<Seq<u8>> {
    match kind {
        AssetKind::Stylesheet => seq![ascii_bytes("style.css"@)],
        AssetKind::CoverImage => seq![
            ascii_bytes("meta.png"@),
            ascii_bytes("meta.jpg"@),
            ascii_bytes("meta.jpeg"@),
            ascii_bytes("meta.gif"@),
            ascii_bytes("meta.webp"@),
            ascii_bytes("meta.avif"@),
            ascii_bytes("meta.svg"@),
        ],
    }
}

/// The candidate paths inside one directory.
pub open spec fn dir_candidates(dir: Seq<u8>, kind: AssetKind) -> Seq<Seq<u8>> {
    kind_names(kind).map_values(|n: Seq<u8>| dir + seq![SLASH] + n)
}

/// All candidate paths from `dir` up to the root, nearest directory
/// first. The walk stops at the root, or as soon as a parent would leave
/// it.
pub open spec fn candidates_from(root: Seq<u8>, dir: Seq<u8>, kind: AssetKind) -> Seq<Seq<u8>>
    decreases dir.len(),
{
    if dir == root {
        dir_candidates(dir, kind)
    } else {
        let p = parent_dir(dir);
        if within_root(root, p) && p.len() < dir.len() {
            dir_candidates(dir, kind) + candidates_from(root, p, kind)
        } else {
            dir_candidates(dir, kind)
        }
    }
}

/// The candidates for a resolved path: from its own directory (itself,
/// for a directory) upward; none when the start lies outside the root.
pub open spec fn asset_candidates_spec(
    root: Seq<u8>,
    resolved: Seq<u8>,
    is_dir: bool,
    kind: AssetKind,
) -> Seq<Seq<u8>> {
    let start = if is_dir {
        resolved
    } else {
        parent_dir(resolved)
    };
    if within_root(root, start) {
        candidates_from(root, start, kind)
    } else {
        Seq::empty()
    }
}

/// A path under a contained directory is itself contained.
proof fn lemma_within_extend(root: Seq<u8>, dir: Seq<u8>, rest: Seq<u8>)
    requires
        within_root(root, dir),
    ensures
        within_root(root, dir + seq![SLASH] + rest),
        (dir + seq![SLASH] + rest).len() > root.len(),
{
    let p = dir + seq![SLASH] + rest;
    if dir == root {
        assert(p.subrange(0, root.len() as int) =~= root);
        assert(p[root.len() as int] == SLASH);
    } else {
        assert forall|k: int| 0 <= k < root.len() implies p[k] == root[k] by {
            assert(p[k] == dir[k]);
            assert(dir.subrange(0, root.len() as int)[k] == dir[k]);
        }
        assert(p.subrange(0, root.len() as int) =~= root);
        assert(p[root.len() as int] == dir[root.len() as int]);
    }
}

/// Every candidate lies strictly under the root.
proof fn lemma_candidates_within(root: Seq<u8>, dir: Seq<u8>, kind: AssetKind)
    requires
        within_root(root, dir),
    ensures
        forall|i: int|
            0 <= i < candidates_from(root, dir, kind).len() ==> within_root(
                root,
                #[trigger] candidates_from(root, dir, kind)[i],
            ) && candidates_from(root, dir, kind)[i].len() > root.len(),
    decreases dir.len(),
{
    let cs = candidates_from(root, dir, kind);
    let names = kind_names(kind);
    assert forall|i: int|
        0 <= i < names.len() implies within_root(root, #[trigger] dir_candidates(dir, kind)[i])
        && dir_candidates(dir, kind)[i].len() > root.len() by {
        lemma_within_extend(root, dir, names[i]);
    }
    if dir != root {
        let p = parent_dir(dir);
        if within_root(root, p) && p.len() < dir.len() {
            lemma_candidates_within(root, p, kind);
            assert forall|i: int| 0 <= i < cs.len() implies within_root(root, #[trigger] cs[i])
                && cs[i].len() > root.len() by {
                if i < dir_candidates(dir, kind).len() {
                    assert(cs[i] == dir_candidates(dir, kind)[i]);
                } else {
                    assert(cs[i] == candidates_from(root, p, kind)[i - dir_candidates(
                        dir,
                        kind,
                    ).len()]);
                }
            }
        }
    }
}

/// One candidate path: `dir/<name>`.
fn dir_candidate(dir: &[u8], name: &str) -> (r: Vec<u8>)
    requires
        name.is_ascii(),
    ensures
        r@ == dir@ + seq![SLASH] + ascii_bytes(name@),
{
    let mut v = subvec(dir, 0, dir.len());
    proof {
        assert(v@ =~= dir@);
    }
    v.push(SLASH);
    push_lit(&mut v, name);
    v
}

/// Append the candidate paths of one directory.
#[verifier::rlimit(30)]
fn push_dir_candidates(out: &mut Vec<Vec<u8>>, dir: &[u8], kind: AssetKind)
    ensures
        seq_views(final(out)@) == seq_views(old(out)@) + dir_candidates(dir@, kind),
{
    proof {
        reveal_strlit("style.css");
        reveal_strlit("meta.png");
        reveal_strlit("meta.jpg");
        reveal_strlit("meta.jpeg");
        reveal_strlit("meta.gif");
        reveal_strlit("meta.webp");
        reveal_strlit("meta.avif");
        reveal_strlit("meta.svg");
    }
    match kind {
        AssetKind::Stylesheet => {
            out.push(dir_candidate(dir, "style.css"));
        },
        AssetKind::CoverImage => {
            out.push(dir_candidate(dir, "meta.png"));
            out.push(dir_candidate(dir, "meta.jpg"));
            out.push(dir_candidate(dir, "meta.jpeg"));
            out.push(dir_candidate(dir, "meta.gif"));
            out.push(dir_candidate(dir, "meta.webp"));
            out.push(dir_candidate(dir, "meta.avif"));
            out.push(dir_candidate(dir, "meta.svg"));
        },
    }
    proof {
        assert(seq_views(out@) =~= seq_views(old(out)@) + dir_candidates(dir@, kind));
    }
}

/// The parent directory of `p`, as an owned path.
fn parent_dir_exec(p: &[u8]) -> (r: Vec<u8>)
    ensures
        r@ == parent_dir(p@),
{
    proof {
        lemma_last_index_of(p@, SLASH);
    }
    match rfind_byte(p, SLASH) {
        Some(k) => {
            let r = subvec(p, 0, k);
            proof {
                assert(r@ =~= p@.take(k as int));
            }
            r
        },
        None => Vec::new(),
    }
}

/// The ordered candidate paths for an asset lookup, nearest directory
/// first. Every candidate lies strictly under the root.
pub fn asset_candidates(root: &[u8], resolved: &[u8], is_dir: bool, kind: AssetKind) -> (r: Vec<
    Vec<u8>,
>)
    ensures
        seq_views(r@) == asset_candidates_spec(root@, resolved@, is_dir, kind),
        forall|i: int|
            0 <= i < r@.len() ==> within_root(root@, #[trigger] r@[i]@) && r@[i]@.len()
                > root@.len(),
{
    let start: Vec<u8> = if is_dir {
        subvec(resolved, 0, resolved.len())
    } else {
        parent_dir_exec(resolved)
    };
    proof {
        assert(is_dir ==> start@ =~= resolved@);
    }
    let mut out: Vec<Vec<u8>> = Vec::new();
    if !is_within_root(root, start.as_slice()) {
        proof {
            assert(seq_views(out@) =~= Seq::<Seq<u8>>::empty());
        }
        return out;
    }
    let ghost start_g = start@;
    let mut cur = start;
    loop
        invariant_except_break
            within_root(root@, cur@),
            seq_views(out@) + candidates_from(root@, cur@, kind) == candidates_from(
                root@,
                start_g,
                kind,
            ),
        ensures
            seq_views(out@) == candidates_from(root@, start_g, kind),
        decreases cur@.len(),
    {
        let ghost cur_g = cur@;
        push_dir_candidates(&mut out, cur.as_slice(), kind);
        if crate::text::eq_bytes(cur.as_slice(), root) {
            proof {
                assert(candidates_from(root@, cur_g, kind) =~= dir_candidates(cur_g, kind));
                assert(seq_views(out@) =~= candidates_from(root@, start_g, kind));
            }
            break ;
        }
        let p = parent_dir_exec(cur.as_slice());
        let p_ok = is_within_root(root, p.as_slice()) && p.len() < cur.len();
        if !p_ok {
            proof {
                assert(candidates_from(root@, cur_g, kind) =~= dir_candidates(cur_g, kind));
                assert(seq_views(out@) =~= candidates_from(root@, start_g, kind));
            }
            break ;
        }
        proof {
            assert(candidates_from(root@, cur_g, kind) == dir_candidates(cur_g, kind)
                + candidates_from(root@, p@, kind));
            assert(seq_views(out@) + candidates_from(root@, p@, kind) =~= candidates_from(
                root@,
                start_g,
                kind,
            ));
        }
        cur = p;
    }
    proof {
        lemma_candidates_within(root@, start_g, kind);
        assert forall|i: int| 0 <= i < out@.len() implies within_root(root@, #[trigger] out@[i]@)
            && out@[i]@.len() > root@.len() by {
            assert(out@[i]@ == seq_views(out@)[i]);
        }
    }
    out
}

/// The root-relative URL of an asset path: a slash followed by the part
/// below the root.
pub open spec fn asset_url_spec(root: Seq<u8>, p: Seq<u8>) -> Seq<u8> {
    seq![SLASH] + p.skip(root.len() as int + 1)
}

/// Turn an asset path under the root into its root-relative URL.
pub fn asset_url(root: &[u8], p: &[u8]) -> (r: Vec<u8>)
    requires
        within_root(root@, p@),
        p@.len() > root@.len(),
    ensures
        r@ == asset_url_spec(root@, p@),
{
    let mut r: Vec<u8> = Vec::new();
    r.push(SLASH);
    let n = p.len();
    proof {
        assert(root@.len() < n);
    }
    let rel = subvec(p, root.len() + 1, n);
    crate::text::append(&mut r, rel.as_slice());
    proof {
        assert(r@ =~= asset_url_spec(root@, p@));
    }
    r
}

/// Pick the first existing candidate and return its root-relative URL:
/// the nearest directory wins, and within one directory the earlier
/// filename.
pub fn locate_asset(root: &[u8], candidates: &Vec<Vec<u8>>, exists: &Vec<bool>) -> (r: Option<
    Vec<u8>,
>)
    requires
        exists@.len() == candidates@.len(),
        forall|i: int|
            0 <= i < candidates@.len() ==> within_root(root@, #[trigger] candidates@[i]@)
                && candidates@[i]@.len() > root@.len(),
    ensures
        match r {
            Some(u) => exists|i: int|
                {
                    &&& 0 <= i < candidates@.len()
                    &&& #[trigger] exists@[i]
                    &&& (forall|j: int| 0 <= j < i ==> !exists@[j])
                    &&& u@ == asset_url_spec(root@, candidates@[i]@)
                },
            None => forall|j: int| 0 <= j < candidates@.len() ==> !exists@[j],
        },
{
    let mut i: usize = 0;
    while i < exists.len()
        invariant
            0 <= i <= exists@.len(),
            exists@.len() == candidates@.len(),
            forall|j: int| 0 <= j < i ==> !exists@[j],
            forall|k: int|
                0 <= k < candidates@.len() ==> within_root(root@, #[trigger] candidates@[k]@)
                    && candidates@[k]@.len() > root@.len(),
        decreases exists@.len() - i,
    {
        if exists[i] {
            let u = asset_url(root, candidates[i].as_slice());
            return Some(u);
        }
        i += 1;
    }
    None
}

} // verus!
