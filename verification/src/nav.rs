//! Breadcrumb navigation for a request path.
//!
//! Every trail starts with a Home entry linking to the root; each path
//! segment follows, linked to its directory URL, except the last, which
//! stands for the current page and carries no link (its `.md` suffix, if
//! any, is not shown). At the root the trail is the single unlinked Home
//! entry, which callers skip rendering.

use vstd::prelude::*;
use crate::listing::md_suffix;
use crate::resolve::len_sans_trailing_slashes;
use crate::text::{
    ascii_bytes, find_byte, first_index_of, has_suffix, lemma_first_index_of_at, push_lit,
    seq_views, subvec, SLASH,
};

verus! {

/// One breadcrumb: a label, and a link for every entry but the last.
pub struct Breadcrumb {
    pub label: Vec<u8>,
    pub url: Option<Vec<u8>>,
}

/// The non-empty `/`-separated segments of `s`.
pub open spec fn segments(s: Seq<u8>) -> Seq<Seq<u8>>
    decreases s.len(),
{
    if s.len() == 0 {
        Seq::empty()
    } else {
        let i = first_index_of(s, SLASH);
        if 0 <= i < s.len() {
            let head = s.subrange(0, i);
            let rest = segments(s.subrange(i + 1, s.len() as int));
            if head.len() == 0 {
                rest
            } else {
                seq![head] + rest
            }
        } else {
            seq![s]
        }
    }
}

/// Split `s` into its non-empty `/`-separated segments.
pub fn split_segments(s: &[u8]) -> (r: Vec<Vec<u8>>)
    ensures
        seq_views(r@) == segments(s@),
{
    let mut out: Vec<Vec<u8>> = Vec::new();
    let mut pos: usize = 0;
    let ghost mut done: Seq<Seq<u8>> = Seq::empty();
    proof {
        assert(s@.subrange(0, s@.len() as int) =~= s@);
    }
    while pos < s.len()
        invariant
            pos <= s@.len(),
            done + segments(s@.subrange(pos as int, s@.len() as int)) == segments(s@),
            pos == s@.len() ==> done == segments(s@),
            out@.len() == done.len(),
            forall|k: int| 0 <= k < done.len() ==> out@[k]@ == done[k],
        decreases s@.len() - pos,
    {
        let ghost rest = s@.subrange(pos as int, s@.len() as int);
        let sl = match find_byte(s, SLASH, pos) {
            Some(i) => i,
            None => s.len(),
        };
        proof {
            if sl < s@.len() {
                assert(rest[sl - pos] == SLASH);
                assert forall|k: int| 0 <= k < sl - pos implies rest[k] != SLASH by {
                    assert(rest[k] == s@[pos + k]);
                }
                lemma_first_index_of_at(rest, SLASH, sl - pos);
            } else {
                assert forall|k: int| 0 <= k < rest.len() implies rest[k] != SLASH by {
                    assert(rest[k] == s@[pos + k]);
                }
                lemma_first_index_of_at(rest, SLASH, rest.len() as int);
            }
        }
        let seg = subvec(s, pos, sl);
        proof {
            assert(seg@ =~= rest.subrange(0, sl - pos));
        }
        if seg.len() > 0 {
            let ghost sv = seg@;
            out.push(seg);
            proof {
                done = done.push(sv);
            }
        }
        if sl == s.len() {
            proof {
                assert(rest.subrange(0, rest.len() as int) =~= rest);
                assert(segments(rest) == seq![rest]);
                assert(done + segments(s@.subrange(s@.len() as int, s@.len() as int)) =~= segments(
                    s@,
                ));
                assert(done =~= segments(s@));
            }
            pos = s.len();
        } else {
            proof {
                assert(rest.subrange(sl + 1 - pos, rest.len() as int) =~= s@.subrange(
                    sl + 1,
                    s@.len() as int,
                ));
                assert(done + segments(s@.subrange(sl + 1, s@.len() as int)) =~= segments(s@));
            }
            pos = sl + 1;
        }
    }
    proof {
        assert(seq_views(out@) =~= done);
    }
    out
}

/// A label with a `.md` suffix not shown.
pub open spec fn strip_md(s: Seq<u8>) -> Seq<u8> {
    if has_suffix(s, md_suffix()) {
        s.take(s.len() - 3)
    } else {
        s
    }
}

/// The URL up to (excluding) segment `i`: a slash, then each earlier
/// segment followed by a slash.
pub open spec fn url_prefix(segs: Seq<Seq<u8>>, i: int) -> Seq<u8>
    decreases i,
{
    if i <= 0 {
        seq![SLASH]
    } else {
        url_prefix(segs, i - 1) + segs[i - 1] + seq![SLASH]
    }
}

/// Build breadcrumbs for a request path.
///
/// The first entry is always Home; at the root it is the only entry and
/// carries no link. Otherwise Home links to `/`, each further segment to
/// its directory, and the final entry — the current page, shown without a
/// `.md` suffix — carries none.
#[verifier::loop_isolation(false)]
pub fn build_breadcrumbs(url_path: &[u8]) -> (r: Vec<Breadcrumb>)
    ensures
        ({
            let trimmed = url_path@.take(len_sans_trailing_slashes(url_path@));
            let segs = segments(trimmed);
            if trimmed.len() == 0 {
                r@.len() == 1 && r@[0].label@ == ascii_bytes("Home"@) && r@[0].url is None
            } else {
                &&& r@.len() == segs.len() + 1
                &&& r@[0].label@ == ascii_bytes("Home"@)
                &&& r@[0].url matches Some(u) && u@ == seq![SLASH]
                &&& forall|i: int|
                    0 <= i < segs.len() ==> {
                        &&& (#[trigger] r@[i + 1]).label@ == (if i == segs.len() - 1 {
                            strip_md(segs[i])
                        } else {
                            segs[i]
                        })
                        &&& (i < segs.len() - 1 ==> (r@[i + 1].url matches Some(u) && u@
                            == url_prefix(segs, i + 1)))
                        &&& (i == segs.len() - 1 ==> r@[i + 1].url is None)
                    }
            }
        }),
{
    proof {
        reveal_strlit("Home");
    }
    let mut b: usize = url_path.len();
    while b > 0 && url_path[b - 1] == SLASH
        invariant
            0 <= b <= url_path@.len(),
            forall|k: int| b <= k < url_path@.len() ==> url_path@[k] == SLASH,
        decreases b,
    {
        b -= 1;
    }
    proof {
        crate::resolve::lemma_trailing_slashes_at(url_path@, b as int);
    }
    let trimmed = subvec(url_path, 0, b);
    proof {
        assert(trimmed@ =~= url_path@.take(len_sans_trailing_slashes(url_path@)));
    }
    let mut crumbs: Vec<Breadcrumb> = Vec::new();
    if trimmed.len() == 0 {
        let mut label: Vec<u8> = Vec::new();
        push_lit(&mut label, "Home");
        proof {
            assert(label@ =~= ascii_bytes("Home"@));
        }
        crumbs.push(Breadcrumb { label, url: None });
        return crumbs;
    }
    let segs = split_segments(trimmed.as_slice());
    let ghost segs_g = segments(trimmed@);
    let mut home_label: Vec<u8> = Vec::new();
    push_lit(&mut home_label, "Home");
    proof {
        assert(home_label@ =~= ascii_bytes("Home"@));
    }
    let mut home_url: Vec<u8> = Vec::new();
    home_url.push(SLASH);
    proof {
        assert(home_url@ =~= seq![SLASH]);
    }
    crumbs.push(Breadcrumb { label: home_label, url: Some(home_url) });
    let mut prefix: Vec<u8> = Vec::new();
    prefix.push(SLASH);
    proof {
        assert(prefix@ =~= url_prefix(segs_g, 0));
    }
    let mut i: usize = 0;
    while i < segs.len()
        invariant
            0 <= i <= segs@.len(),
            segs@.len() == segs_g.len(),
            seq_views(segs@) == segs_g,
            crumbs@.len() == i + 1,
            crumbs@[0].label@ == ascii_bytes("Home"@),
            crumbs@[0].url matches Some(u) && u@ == seq![SLASH],
            i < segs@.len() ==> prefix@ == url_prefix(segs_g, i as int),
            forall|k: int|
                0 <= k < i && k < segs_g.len() - 1 ==> {
                    &&& (#[trigger] crumbs@[k + 1]).label@ == segs_g[k]
                    &&& (crumbs@[k + 1].url matches Some(u) && u@ == url_prefix(segs_g, k + 1))
                },
            forall|k: int|
                0 <= k < i && k == segs_g.len() - 1 ==> {
                    &&& (#[trigger] crumbs@[k + 1]).label@ == strip_md(segs_g[k])
                    &&& crumbs@[k + 1].url is None
                },
        decreases segs@.len() - i,
    {
        proof {
            assert(segs_g[i as int] == segs@[i as int]@);
        }
        let seg = &segs[i];
        let is_last = i == segs.len() - 1;
        if is_last {
            let label = match crate::listing::md_stem(seg.as_slice()) {
                Some(st) => st,
                None => subvec(seg.as_slice(), 0, seg.len()),
            };
            proof {
                assert(label@ == strip_md(segs_g[i as int]));
            }
            crumbs.push(Breadcrumb { label, url: None });
        } else {
            crate::text::append(&mut prefix, seg.as_slice());
            prefix.push(SLASH);
            proof {
                assert(prefix@ =~= url_prefix(segs_g, i as int + 1));
            }
            let url = subvec(prefix.as_slice(), 0, prefix.len());
            proof {
                assert(url@ =~= prefix@);
            }
            let label = subvec(seg.as_slice(), 0, seg.len());
            proof {
                assert(label@ =~= segs_g[i as int]);
            }
            crumbs.push(Breadcrumb { label, url: Some(url) });
        }
        i += 1;
    }
    crumbs
}

} // verus!
