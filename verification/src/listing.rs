//! Directory listings: which children are shown, what metadata each
//! carries, and the deterministic order they appear in.
//!
//! The caller enumerates a directory and hands over, per visible child,
//! its name, kind, raw document text (the file itself, or a directory's
//! index document) and filesystem date; everything from there — hidden
//! and non-markdown entries skipped, the index document excluded as a
//! sibling, metadata parsed and inferred, dated entries newest first,
//! undated entries after them in name order — is decided here.

use vstd::prelude::*;
use crate::front_matter::{
    doc_author, doc_date, doc_summary, doc_title, fill_inferred, opt_view, parse,
};
use crate::resolve::len_sans_trailing_slashes;
use crate::text::{has_suffix, lemma_suffix_bytes, lex_leq, lex_leq_bytes, subvec, SLASH};

verus! {

/// One entry of a rendered directory listing.
pub struct DirEntry {
    pub display_name: Vec<u8>,
    pub url: Vec<u8>,
    pub is_dir: bool,
    pub title: Option<Vec<u8>>,
    pub date: Option<Vec<u8>>,
    pub summary: Option<Vec<u8>>,
    pub author: Option<Vec<u8>>,
    /// Raw document text, carried only where a feed needs it; listings
    /// leave it absent.
    pub content: Option<Vec<u8>>,
}

/// What the caller knows about one directory child before the listing is
/// built: its name, whether it is a directory, its raw document text (the
/// file's own, or for a directory its index document's, when readable),
/// and a date taken from filesystem timestamps, when available.
pub struct RawChild {
    pub name: Vec<u8>,
    pub is_dir: bool,
    pub doc: Option<Vec<u8>>,
    pub fs_date: Option<Vec<u8>>,
}

/// The `.md` suffix.
pub open spec fn md_suffix() -> Seq<u8> {
    seq![46u8, 109u8, 100u8]
}

/// The byte string `index`.
pub open spec fn index_stem() -> Seq<u8> {
    seq![105u8, 110u8, 100u8, 101u8, 120u8]
}

/// A name whose first byte is a dot is hidden.
pub open spec fn is_hidden_name(name: Seq<u8>) -> bool {
    name.len() > 0 && name[0] == 46
}

/// Skip any entry whose name starts with the hidden-file marker.
pub fn is_hidden(name: &[u8]) -> (r: bool)
    ensures
        r == is_hidden_name(name@),
{
    name.len() > 0 && name[0] == 46
}

/// The stem of a `.md` file name, or nothing for any other name.
pub fn md_stem(name: &[u8]) -> (r: Option<Vec<u8>>)
    ensures
        match r {
            Some(s) => has_suffix(name@, md_suffix()) && s@ == name@.take(name@.len() - 3),
            None => !has_suffix(name@, md_suffix()),
        },
{
    proof {
        lemma_suffix_bytes(name@, md_suffix());
    }
    let n = name.len();
    if n >= 3 && name[n - 3] == 46 && name[n - 2] == 109 && name[n - 1] == 100 {
        let s = subvec(name, 0, n - 3);
        proof {
            assert(s@ =~= name@.take(name@.len() - 3));
        }
        Some(s)
    } else {
        None
    }
}

/// The child appears in the listing: not hidden, and a directory or a
/// markdown document other than the directory's own `index`.
pub open spec fn child_listed(c: RawChild) -> bool {
    &&& !is_hidden_name(c.name@)
    &&& (c.is_dir || (has_suffix(c.name@, md_suffix()) && c.name@.take(c.name@.len() - 3)
        != index_stem()))
}

/// The raw text of the child's document; empty when none could be read.
pub open spec fn doc_raw(c: RawChild) -> Seq<u8> {
    match c.doc {
        Some(d) => d@,
        None => Seq::empty(),
    }
}

/// The listing entry a directory child produces: linked with a trailing
/// slash, metadata from its index document when one was readable, the
/// date from the filesystem alone.
pub open spec fn entry_matches_dir(e: DirEntry, base: Seq<u8>, c: RawChild) -> bool {
    &&& e.display_name@ == c.name@
    &&& e.url@ == base + seq![SLASH] + c.name@ + seq![SLASH]
    &&& e.is_dir
    &&& opt_view(e.title) == (match c.doc {
        Some(d) => doc_title(d@),
        None => None::<Seq<u8>>,
    })
    &&& opt_view(e.summary) == (match c.doc {
        Some(d) => doc_summary(d@),
        None => None::<Seq<u8>>,
    })
    &&& opt_view(e.author) == (match c.doc {
        Some(d) => doc_author(d@),
        None => None::<Seq<u8>>,
    })
    &&& opt_view(e.date) == opt_view(c.fs_date)
    &&& e.content is None
}

/// The listing entry a markdown file produces: named and linked by its
/// stem, metadata parsed from the document and inferred where absent.
pub open spec fn entry_matches_file(e: DirEntry, base: Seq<u8>, c: RawChild) -> bool {
    let stem = c.name@.take(c.name@.len() - 3);
    &&& e.display_name@ == stem
    &&& e.url@ == base + seq![SLASH] + stem
    &&& !e.is_dir
    &&& opt_view(e.title) == doc_title(doc_raw(c))
    &&& opt_view(e.summary) == doc_summary(doc_raw(c))
    &&& opt_view(e.author) == doc_author(doc_raw(c))
    &&& opt_view(e.date) == doc_date(doc_raw(c), opt_view(c.fs_date))
    &&& e.content is None
}

pub open spec fn entry_matches_child(e: DirEntry, base: Seq<u8>, c: RawChild) -> bool {
    if c.is_dir {
        entry_matches_dir(e, base, c)
    } else {
        entry_matches_file(e, base, c)
    }
}

/// `es` is exactly the sequence of entries that the listed children of
/// `cs` produce, in enumeration order.
pub open spec fn entries_match(base: Seq<u8>, cs: Seq<RawChild>, es: Seq<DirEntry>) -> bool
    decreases cs.len(),
{
    if cs.len() == 0 {
        es.len() == 0
    } else if child_listed(cs[0]) {
        es.len() > 0 && entry_matches_child(es[0], base, cs[0]) && entries_match(
            base,
            cs.drop_first(),
            es.drop_first(),
        )
    } else {
        entries_match(base, cs.drop_first(), es)
    }
}

proof fn lemma_entries_match_push_listed(
    base: Seq<u8>,
    cs: Seq<RawChild>,
    es: Seq<DirEntry>,
    c: RawChild,
    e: DirEntry,
)
    requires
        entries_match(base, cs, es),
        child_listed(c),
        entry_matches_child(e, base, c),
    ensures
        entries_match(base, cs.push(c), es.push(e)),
    decreases cs.len(),
{
    if cs.len() == 0 {
        assert(cs.push(c)[0] == c);
        assert(es.push(e)[0] == e);
        assert(cs.push(c).drop_first() =~= Seq::<RawChild>::empty());
        assert(es.push(e).drop_first() =~= Seq::<DirEntry>::empty());
        assert(entries_match(base, cs.push(c).drop_first(), es.push(e).drop_first()));
        assert(entries_match(base, cs.push(c), es.push(e)));
    } else {
        assert(cs.push(c)[0] == cs[0]);
        assert(cs.push(c).drop_first() =~= cs.drop_first().push(c));
        if child_listed(cs[0]) {
            assert(es.len() > 0);
            assert(es.push(e)[0] == es[0]);
            assert(es.push(e).drop_first() =~= es.drop_first().push(e));
            lemma_entries_match_push_listed(base, cs.drop_first(), es.drop_first(), c, e);
            assert(entries_match(base, cs.push(c).drop_first(), es.push(e).drop_first()));
            assert(entries_match(base, cs.push(c), es.push(e)));
        } else {
            lemma_entries_match_push_listed(base, cs.drop_first(), es, c, e);
            assert(entries_match(base, cs.push(c).drop_first(), es.push(e)));
            assert(entries_match(base, cs.push(c), es.push(e)));
        }
    }
}

proof fn lemma_entries_match_push_skipped(
    base: Seq<u8>,
    cs: Seq<RawChild>,
    es: Seq<DirEntry>,
    c: RawChild,
)
    requires
        entries_match(base, cs, es),
        !child_listed(c),
    ensures
        entries_match(base, cs.push(c), es),
    decreases cs.len(),
{
    if cs.len() == 0 {
        assert(cs.push(c)[0] == c);
        assert(cs.push(c).drop_first() =~= Seq::<RawChild>::empty());
        assert(entries_match(base, cs.push(c).drop_first(), es));
        assert(entries_match(base, cs.push(c), es));
    } else {
        assert(cs.push(c)[0] == cs[0]);
        assert(cs.push(c).drop_first() =~= cs.drop_first().push(c));
        if child_listed(cs[0]) {
            lemma_entries_match_push_skipped(base, cs.drop_first(), es.drop_first(), c);
            assert(entries_match(base, cs.push(c).drop_first(), es.drop_first()));
            assert(entries_match(base, cs.push(c), es));
        } else {
            lemma_entries_match_push_skipped(base, cs.drop_first(), es, c);
            assert(entries_match(base, cs.push(c), es));
        }
    }
}

/// The base URL of a listing: the request path with trailing slashes
/// removed.
pub open spec fn listing_base(url_path: Seq<u8>) -> Seq<u8> {
    url_path.take(len_sans_trailing_slashes(url_path))
}

/// Copy a byte vector.
fn copy_bytes(v: &Vec<u8>) -> (r: Vec<u8>)
    ensures
        r@ == v@,
{
    let r = subvec(v.as_slice(), 0, v.len());
    proof {
        assert(r@ =~= v@);
    }
    r
}

/// Copy an optional byte vector.
fn copy_opt(o: &Option<Vec<u8>>) -> (r: Option<Vec<u8>>)
    ensures
        opt_view(r) == (match o {
            Some(v) => Some(v@),
            None => None::<Seq<u8>>,
        }),
{
    match o {
        Some(v) => Some(copy_bytes(v)),
        None => None,
    }
}

/// Build the unsorted listing entries for the visible children of a
/// directory, in enumeration order.
#[verifier::loop_isolation(false)]
pub fn make_entries(url_path: &[u8], children: &Vec<RawChild>) -> (r: Vec<DirEntry>)
    ensures
        entries_match(listing_base(url_path@), children@, r@),
{
    let ghost base = listing_base(url_path@);
    // strip trailing slashes from the base URL
    let mut b: usize = url_path.len();
    while b > 0 && url_path[b - 1] == SLASH
        invariant
            0 <= b <= url_path@.len(),
            forall|k: int| b <= k < url_path@.len() ==> url_path@[k] == SLASH,
        decreases b,
    {
        b -= 1;
    }
    proof {
        crate::resolve::lemma_trailing_slashes_at(url_path@, b as int);
    }
    let base_url = subvec(url_path, 0, b);
    proof {
        assert(base_url@ =~= base);
    }
    let mut out: Vec<DirEntry> = Vec::new();
    let mut i: usize = 0;
    proof {
        assert(children@.take(0) =~= Seq::<RawChild>::empty());
        assert(entries_match(base, children@.take(0), out@));
    }
    while i < children.len()
        invariant
            0 <= i <= children@.len(),
            base_url@ == base,
            entries_match(base, children@.take(i as int), out@),
        decreases children@.len() - i,
    {
        let c = &children[i];
        let ghost cg = children@[i as int];
        proof {
            assert(children@.take(i as int + 1) =~= children@.take(i as int).push(cg));
        }
        if is_hidden(c.name.as_slice()) {
            proof {
                lemma_entries_match_push_skipped(base, children@.take(i as int), out@, cg);
            }
            i += 1;
            continue ;
        }
        if c.is_dir {
            let mut url = copy_bytes(&base_url);
            url.push(SLASH);
            crate::text::append(&mut url, c.name.as_slice());
            url.push(SLASH);
            proof {
                assert(url@ =~= base + seq![SLASH] + cg.name@ + seq![SLASH]);
            }
            let (title, summary, author) = match &c.doc {
                Some(d) => {
                    let parsed = parse(d.as_slice());
                    let mut front_matter = parsed.front_matter;
                    let content = parsed.content;
                    if front_matter.title.is_none() {
                        front_matter.title = crate::front_matter::infer_title(content.as_slice());
                    }
                    if front_matter.summary.is_none() {
                        front_matter.summary = crate::front_matter::infer_summary(
                            content.as_slice(),
                        );
                    }
                    (front_matter.title, front_matter.summary, front_matter.author)
                },
                None => (None, None, None),
            };
            let e = DirEntry {
                display_name: copy_bytes(&c.name),
                url,
                is_dir: true,
                title,
                date: copy_opt(&c.fs_date),
                summary,
                author,
                content: None,
            };
            proof {
                assert(entry_matches_child(e, base, cg));
                lemma_entries_match_push_listed(base, children@.take(i as int), out@, cg, e);
            }
            out.push(e);
            proof {
                assert(entries_match(base, children@.take(i as int + 1), out@));
            }
            i += 1;
            continue ;
        }
        let stem = match md_stem(c.name.as_slice()) {
            Some(s) => s,
            None => {
                proof {
                    lemma_entries_match_push_skipped(base, children@.take(i as int), out@, cg);
                }
                i += 1;
                continue ;
            },
        };
        if stem.len() == 5 && stem[0] == 105 && stem[1] == 110 && stem[2] == 100 && stem[3] == 101
            && stem[4] == 120 {
            proof {
                assert(stem@ =~= index_stem());
                lemma_entries_match_push_skipped(base, children@.take(i as int), out@, cg);
            }
            i += 1;
            continue ;
        }
        proof {
            if stem@ == index_stem() {
                assert(stem@.len() == 5 && stem@[0] == 105 && stem@[1] == 110 && stem@[2] == 100
                    && stem@[3] == 101 && stem@[4] == 120);
            }
        }
        let raw: Vec<u8> = match &c.doc {
            Some(d) => copy_bytes(d),
            None => Vec::new(),
        };
        proof {
            assert(raw@ == doc_raw(cg));
        }
        let parsed = parse(raw.as_slice());
        let mut front_matter = parsed.front_matter;
        let content = parsed.content;
        fill_inferred(&mut front_matter, content.as_slice(), copy_opt(&c.fs_date));
        let mut url = copy_bytes(&base_url);
        url.push(SLASH);
        crate::text::append(&mut url, stem.as_slice());
        proof {
            assert(url@ =~= base + seq![SLASH] + cg.name@.take(cg.name@.len() - 3));
        }
        let e = DirEntry {
            display_name: stem,
            url,
            is_dir: false,
            title: front_matter.title,
            date: front_matter.date,
            summary: front_matter.summary,
            author: front_matter.author,
            content: None,
        };
        proof {
            assert(entry_matches_child(e, base, cg));
            lemma_entries_match_push_listed(base, children@.take(i as int), out@, cg, e);
        }
        out.push(e);
        i += 1;
    }
    proof {
        assert(children@.take(children@.len() as int) =~= children@);
    }
    out
}

/// Listing order: entries with a date sort newest first; entries without
/// one come after all dated entries, alphabetically by display name.
pub open spec fn entry_le(a: DirEntry, b: DirEntry) -> bool {
    match (a.date, b.date) {
        (Some(ad), Some(bd)) => lex_leq(bd@, ad@),
        (Some(_), None) => true,
        (None, Some(_)) => false,
        (None, None) => lex_leq(a.display_name@, b.display_name@),
    }
}

pub open spec fn entries_sorted(s: Seq<DirEntry>) -> bool {
    forall|i: int, j: int| 0 <= i < j < s.len() ==> entry_le(s[i], s[j])
}

pub proof fn lemma_entry_le_total(a: DirEntry, b: DirEntry)
    ensures
        entry_le(a, b) || entry_le(b, a),
{
    match (a.date, b.date) {
        (Some(ad), Some(bd)) => crate::text::lemma_lex_leq_total(bd@, ad@),
        (None, None) => crate::text::lemma_lex_leq_total(a.display_name@, b.display_name@),
        _ => {},
    }
}

pub proof fn lemma_entry_le_trans(a: DirEntry, b: DirEntry, c: DirEntry)
    requires
        entry_le(a, b),
        entry_le(b, c),
    ensures
        entry_le(a, c),
{
    match (a.date, b.date, c.date) {
        (Some(ad), Some(bd), Some(cd)) => crate::text::lemma_lex_leq_trans(cd@, bd@, ad@),
        (None, None, None) => crate::text::lemma_lex_leq_trans(
            a.display_name@,
            b.display_name@,
            c.display_name@,
        ),
        _ => {},
    }
}

fn entry_le_exec(a: &DirEntry, b: &DirEntry) -> (r: bool)
    ensures
        r == entry_le(*a, *b),
{
    match (&a.date, &b.date) {
        (Some(ad), Some(bd)) => lex_leq_bytes(bd.as_slice(), ad.as_slice()),
        (Some(_), None) => true,
        (None, Some(_)) => false,
        (None, None) => lex_leq_bytes(a.display_name.as_slice(), b.display_name.as_slice()),
    }
}

/// Insert `e` into the sorted `out`, keeping it sorted.
#[verifier::loop_isolation(false)]
fn insert_entry_sorted(out: &mut Vec<DirEntry>, e: DirEntry)
    requires
        entries_sorted(old(out)@),
    ensures
        entries_sorted(final(out)@),
        final(out)@.to_multiset() == old(out)@.to_multiset().insert(e),
{
    let mut p: usize = 0;
    while p < out.len() && entry_le_exec(&out[p], &e)
        invariant
            0 <= p <= out@.len(),
            forall|k: int| 0 <= k < p ==> entry_le(out@[k], e),
        decreases out@.len() - p,
    {
        p += 1;
    }
    let ghost before = out@;
    out.insert(p, e);
    proof {
        broadcast use vstd::seq_lib::to_multiset_insert;

        assert(out@ =~= before.insert(p as int, e));
        before.insert_ensures(p as int, e);
        assert forall|i: int, j: int| 0 <= i < j < out@.len() implies entry_le(
            out@[i],
            out@[j],
        ) by {
            if p < before.len() {
                assert(!entry_le(before[p as int], e));
                lemma_entry_le_total(before[p as int], e);
            }
            if i < p && j == p {
            } else if i == p && j > p + 1 {
                lemma_entry_le_trans(e, before[p as int], before[j - 1]);
            } else if i < p && j > p {
            } else if i > p || j < p {
            }
        }
    }
}

/// Sort listing entries: dated entries newest first, undated after them
/// in name order. The result holds exactly the entries given.
#[verifier::loop_isolation(false)]
pub fn sort_entries(entries: Vec<DirEntry>) -> (r: Vec<DirEntry>)
    ensures
        entries_sorted(r@),
        r@.to_multiset() == entries@.to_multiset(),
{
    let ghost total = entries@.to_multiset();
    let mut rest = entries;
    let mut out: Vec<DirEntry> = Vec::new();
    proof {
        broadcast use vstd::seq_lib::group_to_multiset_ensures;

        assert(out@.to_multiset().len() == 0);
        assert(out@.to_multiset().add(rest@.to_multiset()) =~= total);
    }
    while rest.len() > 0
        invariant
            entries_sorted(out@),
            out@.to_multiset().add(rest@.to_multiset()) == total,
        decreases rest@.len(),
    {
        let ghost rest_before = rest@;
        let e = rest.remove(0);
        proof {
            broadcast use vstd::seq_lib::group_to_multiset_ensures;

            assert(rest@ =~= rest_before.remove(0));
            assert(rest@.to_multiset() =~= rest_before.to_multiset().remove(e));
            assert(rest_before.to_multiset().contains(e));
        }
        let ghost out_before = out@;
        insert_entry_sorted(&mut out, e);
        proof {
            assert(out@.to_multiset().add(rest@.to_multiset()) =~= total);
        }
    }
    proof {
        broadcast use vstd::seq_lib::group_to_multiset_ensures;

        assert(rest@.to_multiset().len() == 0);
        assert(out@.to_multiset().add(rest@.to_multiset()) =~= out@.to_multiset());
    }
    out
}

/// Build a directory listing: the entries of the visible children, in
/// listing order.
pub fn build_listing(url_path: &[u8], children: &Vec<RawChild>) -> (r: Vec<DirEntry>)
    ensures
        entries_sorted(r@),
        exists|mid: Seq<DirEntry>|
            entries_match(listing_base(url_path@), children@, mid) && r@.to_multiset()
                == mid.to_multiset(),
{
    let mid = make_entries(url_path, children);
    let ghost mid_view = mid@;
    let r = sort_entries(mid);
    proof {
        assert(entries_match(listing_base(url_path@), children@, mid_view) && r@.to_multiset()
            == mid_view.to_multiset());
    }
    r
}

} // verus!
