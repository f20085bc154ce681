//! Request routing: what a decoded request path asks for.
//!
//! The routing decision is pure except for two facts only the filesystem
//! knows: whether the lexical target is a directory on disk, and whether
//! the clean-URL fallback document exists. The caller supplies those as
//! answers to explicit probes; each step here is a total function of its
//! arguments.

use vstd::prelude::*;
use crate::resolve::{has_dotdot, join_under, strip_slashes};
use crate::text::{
    has_suffix, last_index_of, lemma_suffix_bytes, lower_bytes, lower_ascii, rfind_byte, subvec,
    SLASH,
};

verus! {

/// What a request path resolves to, once every needed probe is answered.
pub enum Route {
    /// Serve a directory listing (or its index document) for `fs_path`,
    /// presented under `url_path`.
    Directory { fs_path: Vec<u8>, url_path: Vec<u8> },
    /// The path names a real directory without a trailing slash: redirect
    /// to the canonical URL.
    RedirectToDir { location: Vec<u8> },
    /// Serve the markdown document at `fs_path` as a rendered page.
    Markdown { fs_path: Vec<u8> },
    /// Serve the file at `fs_path` as a static pass-through.
    Static { fs_path: Vec<u8> },
    /// The request is refused with `NotFound`.
    Rejected,
}

/// A routing step: either a final route, or a probe the caller must
/// answer before the next step.
pub enum RouteStep {
    Done(Route),
    /// Ask whether `fs_path` is a directory on disk, then call
    /// [`route_after_stat`].
    ProbeIsDir { fs_path: Vec<u8> },
    /// Ask whether `md_path` exists, then call [`route_after_md_probe`].
    ProbeMarkdown { md_path: Vec<u8> },
}

/// The lexical filesystem path of a request: the path's segments joined
/// under the root; the root itself when nothing remains.
pub open spec fn route_fs_path(root: Seq<u8>, path: Seq<u8>) -> Seq<u8> {
    let rel = strip_slashes(path);
    if rel.len() == 0 {
        root
    } else {
        join_under(root, rel)
    }
}

pub open spec fn ends_with_slash(p: Seq<u8>) -> bool {
    p.len() > 0 && p[p.len() - 1] == SLASH
}

/// The byte string `/index.html`.
pub open spec fn index_html_suffix() -> Seq<u8> {
    seq![47u8, 105u8, 110u8, 100u8, 101u8, 120u8, 46u8, 104u8, 116u8, 109u8, 108u8]
}

/// The URL of the directory that a `.../index.html` request stands for:
/// the path with the final `index.html` removed, trailing slash kept.
pub open spec fn dir_url_of_index(path: Seq<u8>) -> Seq<u8> {
    path.take(path.len() - 10)
}

/// Position of the dot starting the extension of `p`'s final segment, or
/// `-1`: the last dot, provided it stands strictly inside the segment (a
/// name that merely begins with a dot has no extension).
pub open spec fn ext_dot_index(p: Seq<u8>) -> int {
    let s = last_index_of(p, SLASH);
    let d = last_index_of(p, 46);
    if d > s + 1 {
        d
    } else {
        -1
    }
}

/// The extension of `p`'s final segment, lower-cased, if any.
pub open spec fn ext_lower(p: Seq<u8>) -> Option<Seq<u8>> {
    let d = ext_dot_index(p);
    if d >= 0 {
        Some(lower_bytes(p.skip(d + 1)))
    } else {
        None
    }
}

/// `p` with its extension replaced by (or, absent one, extended with)
/// `.md`.
pub open spec fn with_md_ext(p: Seq<u8>) -> Seq<u8> {
    let d = ext_dot_index(p);
    if d >= 0 {
        p.take(d) + seq![46u8, 109u8, 100u8]
    } else {
        p + seq![46u8, 109u8, 100u8]
    }
}

/// The extensions served as static pass-throughs rather than rendered:
/// css, js, mjs, png, jpg, jpeg, gif, svg, webp, ico, avif, woff, woff2,
/// ttf, otf, eot, txt, pdf, mp4, webm, mp3, ogg, wav.
pub open spec fn is_static_ext(e: Seq<u8>) -> bool {
    ||| e == seq![99u8, 115u8, 115u8]  // css
    ||| e == seq![106u8, 115u8]  // js
    ||| e == seq![109u8, 106u8, 115u8]  // mjs
    ||| e == seq![112u8, 110u8, 103u8]  // png
    ||| e == seq![106u8, 112u8, 103u8]  // jpg
    ||| e == seq![106u8, 112u8, 101u8, 103u8]  // jpeg
    ||| e == seq![103u8, 105u8, 102u8]  // gif
    ||| e == seq![115u8, 118u8, 103u8]  // svg
    ||| e == seq![119u8, 101u8, 98u8, 112u8]  // webp
    ||| e == seq![105u8, 99u8, 111u8]  // ico
    ||| e == seq![97u8, 118u8, 105u8, 102u8]  // avif
    ||| e == seq![119u8, 111u8, 102u8, 102u8]  // woff
    ||| e == seq![119u8, 111u8, 102u8, 102u8, 50u8]  // woff2
    ||| e == seq![116u8, 116u8, 102u8]  // ttf
    ||| e == seq![111u8, 116u8, 102u8]  // otf
    ||| e == seq![101u8, 111u8, 116u8]  // eot
    ||| e == seq![116u8, 120u8, 116u8]  // txt
    ||| e == seq![112u8, 100u8, 102u8]  // pdf
    ||| e == seq![109u8, 112u8, 52u8]  // mp4
    ||| e == seq![119u8, 101u8, 98u8, 109u8]  // webm
    ||| e == seq![109u8, 112u8, 51u8]  // mp3
    ||| e == seq![111u8, 103u8, 103u8]  // ogg
    ||| e == seq![119u8, 97u8, 118u8]  // wav
}

fn eq2(e: &[u8], a: u8, b: u8) -> (r: bool)
    ensures
        r == (e@ == seq![a, b]),
{
    let r = e.len() == 2 && e[0] == a && e[1] == b;
    proof {
        if r {
            assert(e@ =~= seq![a, b]);
        }
    }
    r
}

fn eq3(e: &[u8], a: u8, b: u8, c: u8) -> (r: bool)
    ensures
        r == (e@ == seq![a, b, c]),
{
    let r = e.len() == 3 && e[0] == a && e[1] == b && e[2] == c;
    proof {
        if r {
            assert(e@ =~= seq![a, b, c]);
        }
    }
    r
}

fn eq4(e: &[u8], a: u8, b: u8, c: u8, d: u8) -> (r: bool)
    ensures
        r == (e@ == seq![a, b, c, d]),
{
    let r = e.len() == 4 && e[0] == a && e[1] == b && e[2] == c && e[3] == d;
    proof {
        if r {
            assert(e@ =~= seq![a, b, c, d]);
        }
    }
    r
}

fn eq5(e: &[u8], a: u8, b: u8, c: u8, d: u8, f: u8) -> (r: bool)
    ensures
        r == (e@ == seq![a, b, c, d, f]),
{
    let r = e.len() == 5 && e[0] == a && e[1] == b && e[2] == c && e[3] == d && e[4] == f;
    proof {
        if r {
            assert(e@ =~= seq![a, b, c, d, f]);
        }
    }
    r
}

/// Is `e` (already lower-cased) one of the static pass-through
/// extensions?
pub fn static_ext(e: &[u8]) -> (r: bool)
    ensures
        r == is_static_ext(e@),
{
    eq3(e, 99, 115, 115) || eq2(e, 106, 115) || eq3(e, 109, 106, 115) || eq3(e, 112, 110, 103)
        || eq3(e, 106, 112, 103) || eq4(e, 106, 112, 101, 103) || eq3(e, 103, 105, 102) || eq3(
        e,
        115,
        118,
        103,
    ) || eq4(e, 119, 101, 98, 112) || eq3(e, 105, 99, 111) || eq4(e, 97, 118, 105, 102) || eq4(
        e,
        119,
        111,
        102,
        102,
    ) || eq5(e, 119, 111, 102, 102, 50) || eq3(e, 116, 116, 102) || eq3(e, 111, 116, 102) || eq3(
        e,
        101,
        111,
        116,
    ) || eq3(e, 116, 120, 116) || eq3(e, 112, 100, 102) || eq3(e, 109, 112, 52) || eq4(
        e,
        119,
        101,
        98,
        109,
    ) || eq3(e, 109, 112, 51) || eq3(e, 111, 103, 103) || eq3(e, 119, 97, 118)
}

/// Number of leading slashes of `path`.
#[verifier::loop_isolation(false)]
fn leading_slash_count(path: &[u8]) -> (a: usize)
    ensures
        0 <= a <= path@.len(),
        a as int == crate::resolve::leading_slashes(path@),
{
    let mut a: usize = 0;
    while a < path.len() && path[a] == SLASH
        invariant
            a <= path@.len(),
            forall|k: int| 0 <= k < a ==> path@[k] == SLASH,
        decreases path@.len() - a,
    {
        a += 1;
    }
    proof {
        crate::resolve::lemma_leading_slashes_at(path@, a as int);
    }
    a
}

/// Join the request path under the root, or return the root itself for
/// an empty remainder.
#[verifier::loop_isolation(false)]
fn fs_path_for(root: &[u8], path: &[u8]) -> (r: Vec<u8>)
    ensures
        r@ == route_fs_path(root@, path@),
{
    let a = leading_slash_count(path);
    if a == path.len() {
        proof {
            assert(strip_slashes(path@).len() == 0);
        }
        let root_copy = subvec(root, 0, root.len());
        proof {
            assert(root_copy@ =~= root@);
        }
        return root_copy;
    }
    let mut j: Vec<u8> = Vec::new();
    crate::text::append(&mut j, root);
    j.push(SLASH);
    let rel = subvec(path, a, path.len());
    crate::text::append(&mut j, rel.as_slice());
    proof {
        assert(rel@ =~= strip_slashes(path@));
        assert(j@ =~= join_under(root@, strip_slashes(path@)));
    }
    j
}

/// First routing step for a decoded request path (leading slash
/// included): reject traversal, recognize directory requests and
/// `index.html` aliases, and otherwise ask whether the target is a
/// directory on disk.
#[verifier::loop_isolation(false)]
pub fn route_request(root: &[u8], path: &[u8]) -> (r: RouteStep)
    ensures
        ({
            let is_dir_req = ends_with_slash(path@) || strip_slashes(path@).len() == 0;
            let is_index = has_suffix(path@, index_html_suffix());
            &&& has_dotdot(path@) ==> r == RouteStep::Done(Route::Rejected)
            &&& !has_dotdot(path@) && is_dir_req ==> (r matches RouteStep::Done(
                Route::Directory { fs_path, url_path },
            ) && fs_path@ == route_fs_path(root@, path@) && url_path@ == path@)
            &&& !has_dotdot(path@) && !is_dir_req && is_index ==> (r matches RouteStep::Done(
                Route::Directory { fs_path, url_path },
            ) && url_path@ == dir_url_of_index(path@) && fs_path@ == route_fs_path(
                root@,
                dir_url_of_index(path@),
            ))
            &&& !has_dotdot(path@) && !is_dir_req && !is_index ==> (r matches
                RouteStep::ProbeIsDir { fs_path } && fs_path@ == route_fs_path(root@, path@))
        }),
{
    if crate::resolve::contains_dotdot_segment(path) {
        return RouteStep::Done(Route::Rejected);
    }
    let fs_path = fs_path_for(root, path);
    let empty_rel = leading_slash_count(path) == path.len();
    if (path.len() > 0 && path[path.len() - 1] == SLASH) || empty_rel {
        return RouteStep::Done(
            Route::Directory { fs_path, url_path: subvec(path, 0, path.len()) },
        );
    }
    proof {
        lemma_suffix_bytes(path@, index_html_suffix());
    }
    let n = path.len();
    let is_index = n >= 11 && path[n - 11] == 47 && path[n - 10] == 105 && path[n - 9] == 110
        && path[n - 8] == 100 && path[n - 7] == 101 && path[n - 6] == 120 && path[n - 5] == 46
        && path[n - 4] == 104 && path[n - 3] == 116 && path[n - 2] == 109 && path[n - 1] == 108;
    if is_index {
        let dir_url = subvec(path, 0, n - 10);
        proof {
            assert(dir_url@ =~= dir_url_of_index(path@));
        }
        let dir_fs = fs_path_for(root, dir_url.as_slice());
        return RouteStep::Done(Route::Directory { fs_path: dir_fs, url_path: dir_url });
    }
    RouteStep::ProbeIsDir { fs_path }
}

/// Second routing step, once the caller knows whether the lexical target
/// is a directory on disk: redirect to the canonical directory URL,
/// dispatch on the extension, or ask for the clean-URL fallback probe.
#[verifier::loop_isolation(false)]
pub fn route_after_stat(root: &[u8], path: &[u8], is_dir: bool) -> (r: RouteStep)
    ensures
        ({
            let fs = route_fs_path(root@, path@);
            let bad = has_dotdot(path@) || strip_slashes(path@).len() == 0;
            &&& bad ==> r == RouteStep::Done(Route::Rejected)
            &&& !bad && is_dir ==> (r matches RouteStep::Done(Route::RedirectToDir { location })
                && location@ == path@ + seq![SLASH])
            &&& !bad && !is_dir && ext_lower(fs) == Some(seq![109u8, 100u8]) ==> (r matches
                RouteStep::Done(Route::Markdown { fs_path }) && fs_path@ == fs)
            &&& !bad && !is_dir && (ext_lower(fs) matches Some(e) && e != seq![109u8, 100u8]
                && is_static_ext(e)) ==> (r matches RouteStep::Done(Route::Static { fs_path })
                && fs_path@ == fs)
            &&& !bad && !is_dir && (match ext_lower(fs) {
                Some(e) => e != seq![109u8, 100u8] && !is_static_ext(e),
                None => true,
            }) ==> (r matches RouteStep::ProbeMarkdown { md_path } && md_path@ == with_md_ext(fs))
        }),
{
    if crate::resolve::contains_dotdot_segment(path) {
        return RouteStep::Done(Route::Rejected);
    }
    if leading_slash_count(path) == path.len() {
        return RouteStep::Done(Route::Rejected);
    }
    let fs_path = fs_path_for(root, path);
    if is_dir {
        let mut location = subvec(path, 0, path.len());
        location.push(SLASH);
        proof {
            assert(location@ =~= path@ + seq![SLASH]);
        }
        return RouteStep::Done(Route::RedirectToDir { location });
    }
    let n = fs_path.len();
    let slash_at = rfind_byte(fs_path.as_slice(), SLASH);
    let dot_at = rfind_byte(fs_path.as_slice(), 46);
    let ghost fs = fs_path@;
    proof {
        crate::text::lemma_last_index_of(fs, SLASH);
        crate::text::lemma_last_index_of(fs, 46);
        assert(fs.len() == n);
    }
    let d: usize = match (slash_at, dot_at) {
        (Some(s), Some(d)) => {
            if d > s + 1 {
                d
            } else {
                proof {
                    assert(ext_dot_index(fs) == -1);
                }
                return route_to_md_probe(fs_path);
            }
        },
        (None, Some(d)) => {
            if d >= 1 {
                d
            } else {
                proof {
                    assert(ext_dot_index(fs) == -1);
                }
                return route_to_md_probe(fs_path);
            }
        },
        (_, None) => {
            proof {
                assert(ext_dot_index(fs) == -1);
            }
            return route_to_md_probe(fs_path);
        },
    };
    proof {
        assert(ext_dot_index(fs) == d);
    }
    let ext_raw = subvec(fs_path.as_slice(), d + 1, fs_path.len());
    let ext = lower_ascii(ext_raw.as_slice());
    proof {
        assert(ext_raw@ =~= fs.skip(d + 1));
        assert(ext@ == lower_bytes(fs.skip(d + 1)));
    }
    if eq2(ext.as_slice(), 109, 100) {
        return RouteStep::Done(Route::Markdown { fs_path });
    }
    if static_ext(ext.as_slice()) {
        return RouteStep::Done(Route::Static { fs_path });
    }
    let stem = subvec(fs_path.as_slice(), 0, d);
    proof {
        assert(stem@ =~= fs.take(d as int));
    }
    let mut md_path = stem;
    md_path.push(46);
    md_path.push(109);
    md_path.push(100);
    proof {
        assert(md_path@ =~= with_md_ext(fs));
    }
    RouteStep::ProbeMarkdown { md_path }
}

/// Turn a path without a usable extension into its clean-URL probe.
fn route_to_md_probe(fs_path: Vec<u8>) -> (r: RouteStep)
    requires
        ext_dot_index(fs_path@) == -1,
    ensures
        r matches RouteStep::ProbeMarkdown { md_path } && md_path@ == with_md_ext(fs_path@),
{
    let ghost orig = fs_path@;
    let mut md_path = fs_path;
    md_path.push(46);
    md_path.push(109);
    md_path.push(100);
    proof {
        assert(md_path@ =~= with_md_ext(orig));
    }
    RouteStep::ProbeMarkdown { md_path }
}

/// A new document's path with the markdown extension guaranteed: the
/// path unchanged when it already ends in `.md`, else with `.md`
/// appended.
pub fn ensure_md_extension(path: &[u8]) -> (r: Vec<u8>)
    ensures
        r@ == if has_suffix(path@, crate::listing::md_suffix()) {
            path@
        } else {
            path@ + seq![46u8, 109u8, 100u8]
        },
{
    proof {
        lemma_suffix_bytes(path@, crate::listing::md_suffix());
    }
    let n = path.len();
    let already = n >= 3 && path[n - 3] == 46 && path[n - 2] == 109 && path[n - 1] == 100;
    let mut r = subvec(path, 0, n);
    proof {
        assert(r@ =~= path@);
    }
    if !already {
        r.push(46);
        r.push(109);
        r.push(100);
        proof {
            assert(r@ =~= path@ + seq![46u8, 109u8, 100u8]);
        }
    }
    r
}

/// An ASCII letter or digit, which percent-encoding leaves alone.
pub open spec fn is_url_plain(b: u8) -> bool {
    (48 <= b <= 57) || (65 <= b <= 90) || (97 <= b <= 122)
}

/// An upper-case hexadecimal digit.
pub open spec fn hex_upper(n: int) -> u8 {
    if n < 10 {
        (48 + n) as u8
    } else {
        (55 + n) as u8
    }
}

/// One byte percent-encoded: alphanumerics stay, everything else becomes
/// `%` and two upper-case hex digits.
pub open spec fn pct_byte(b: u8) -> Seq<u8> {
    if is_url_plain(b) {
        seq![b]
    } else {
        seq![37u8, hex_upper(b as int / 16), hex_upper(b as int % 16)]
    }
}

/// `s` percent-encoded, byte by byte.
pub open spec fn pct_encoded(s: Seq<u8>) -> Seq<u8>
    decreases s.len(),
{
    if s.len() == 0 {
        Seq::empty()
    } else {
        pct_byte(s[0]) + pct_encoded(s.drop_first())
    }
}

/// Percent-encode `s` for safe use in a URL query string: every byte but
/// the ASCII alphanumerics is escaped.
#[verifier::loop_isolation(false)]
pub fn urlencoded(s: &[u8]) -> (r: Vec<u8>)
    ensures
        r@ == pct_encoded(s@),
{
    let mut out: Vec<u8> = Vec::new();
    let mut i: usize = 0;
    proof {
        assert(s@.skip(0) =~= s@);
    }
    while i < s.len()
        invariant
            0 <= i <= s@.len(),
            out@ + pct_encoded(s@.skip(i as int)) == pct_encoded(s@),
        decreases s@.len() - i,
    {
        let ghost rest = s@.skip(i as int);
        proof {
            assert(rest[0] == s@[i as int]);
            assert(rest.drop_first() =~= s@.skip(i as int + 1));
        }
        let b = s[i];
        let plain = (48 <= b && b <= 57) || (65 <= b && b <= 90) || (97 <= b && b <= 122);
        if plain {
            out.push(b);
        } else {
            out.push(37);
            let hi = b / 16;
            let lo = b % 16;
            out.push(if hi < 10 {
                48 + hi
            } else {
                55 + hi
            });
            out.push(if lo < 10 {
                48 + lo
            } else {
                55 + lo
            });
        }
        i += 1;
        proof {
            assert(out@ + pct_encoded(s@.skip(i as int)) =~= pct_encoded(s@));
        }
    }
    proof {
        assert(pct_encoded(s@.skip(s@.len() as int)) =~= Seq::<u8>::empty());
        assert(out@ + Seq::<u8>::empty() =~= out@);
    }
    out
}

/// Final routing step of a clean URL: serve the fallback document when it
/// exists, otherwise the request is refused.
pub fn route_after_md_probe(md_path: Vec<u8>, md_exists: bool) -> (r: Route)
    ensures
        md_exists ==> (r matches Route::Markdown { fs_path } && fs_path@ == md_path@),
        !md_exists ==> r == Route::Rejected,
{
    if md_exists {
        Route::Markdown { fs_path: md_path }
    } else {
        Route::Rejected
    }
}

} // verus!
