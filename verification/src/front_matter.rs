//! Front-matter extraction and metadata inference.
//!
//! A document may begin with a YAML metadata block delimited by `---`
//! lines; the block is split off exactly, handed to a YAML parser, and the
//! rest is the body. Malformed metadata degrades to all-absent fields, it
//! never fails a request. Missing fields are inferred from the body (first
//! heading, first paragraph) or from a caller-supplied filesystem date.

use vstd::prelude::*;
use crate::text::{
    find_byte, has_prefix, join_spaces, join_with_spaces, lemma_occurs_bytes, lemma_prefix_bytes,
    lines, occurs_at, seq_views, split_lines, subvec, trim, trim_spec, NL,
};

verus! {

/// Carriage return.
pub const CR: u8 = 13;

/// The metadata of a document: each field a byte string or absent.
pub struct FrontMatter {
    pub title: Option<Vec<u8>>,
    pub summary: Option<Vec<u8>>,
    pub author: Option<Vec<u8>>,
    pub date: Option<Vec<u8>>,
}

/// A document split into metadata and body.
pub struct ParsedDoc {
    pub front_matter: FrontMatter,
    pub content: Vec<u8>,
}

/// The view of an optional byte vector.
pub open spec fn opt_view(o: Option<Vec<u8>>) -> Option<Seq<u8>> {
    match o {
        Some(v) => Some(v@),
        None => None,
    }
}

/// All four fields absent.
pub open spec fn fm_is_empty(fm: FrontMatter) -> bool {
    fm.title is None && fm.summary is None && fm.author is None && fm.date is None
}

impl Default for FrontMatter {
    /// Front matter with every field absent.
    fn default() -> (r: Self)
        ensures
            fm_is_empty(r),
    {
        FrontMatter { title: None, summary: None, author: None, date: None }
    }
}

/// What the YAML parser extracts from a metadata block: the string fields
/// `title`, `summary`, `author` and `date`, in that order.
pub uninterp spec fn yaml_fields(block: Seq<u8>) -> (
    Option<Seq<u8>>,
    Option<Seq<u8>>,
    Option<Seq<u8>>,
    Option<Seq<u8>>,
);

/// Relies on `serde_yml::from_str` and `serde_yml::Value::{get, as_str}`:
/// parses `block` as YAML and takes the string fields `title`, `summary`,
/// `author` and `date` of the resulting mapping; a field is absent when the
/// block does not parse, is not a mapping, or holds no string under that
/// key. The result depends on the block's bytes alone.
#[verifier::external_body]
fn parse_yaml_block(block: &[u8]) -> (fm: FrontMatter)
    ensures
        (opt_view(fm.title), opt_view(fm.summary), opt_view(fm.author), opt_view(fm.date))
            == yaml_fields(block@),
{
    let empty = FrontMatter { title: None, summary: None, author: None, date: None };
    let Ok(text) = std::str::from_utf8(block) else { return empty };
    let Ok(v) = serde_yml::from_str::<serde_yml::Value>(text) else { return empty };
    let f = |k: &str| v.get(k).and_then(|x| x.as_str()).map(|s| s.as_bytes().to_vec());
    FrontMatter { title: f("title"), summary: f("summary"), author: f("author"), date: f("date") }
}

/// The UTF-8 byte-order mark.
pub open spec fn bom() -> Seq<u8> {
    seq![0xEFu8, 0xBBu8, 0xBFu8]
}

/// `s` with a leading byte-order mark removed.
pub open spec fn strip_bom(s: Seq<u8>) -> Seq<u8> {
    if has_prefix(s, bom()) {
        s.skip(3)
    } else {
        s
    }
}

/// Length of the opening delimiter line at the start of `t`: 4 for
/// `---\n`, 5 for `---\r\n`, 0 when there is none.
pub open spec fn open_delim_len(t: Seq<u8>) -> int {
    if has_prefix(t, seq![45u8, 45u8, 45u8, 10u8]) {
        4
    } else if has_prefix(t, seq![45u8, 45u8, 45u8, 13u8, 10u8]) {
        5
    } else {
        0
    }
}

/// The closing-delimiter pattern: a line feed followed by `---`.
pub open spec fn close_pat() -> Seq<u8> {
    seq![10u8, 45u8, 45u8, 45u8]
}

/// A closing delimiter stands at `i`: `\n---` occurs there and is followed
/// by a line feed, a carriage-return line feed, or the end of input.
pub open spec fn is_close_at(s: Seq<u8>, i: int) -> bool {
    occurs_at(s, close_pat(), i) && (i + 4 == s.len() || s[i + 4] == NL || (s[i + 4] == CR && i + 5
        < s.len() && s[i + 5] == NL))
}

/// Where the body begins, given a closing delimiter at `i`.
pub open spec fn content_start_at(s: Seq<u8>, i: int) -> int {
    if i + 4 == s.len() {
        i + 4
    } else if s[i + 4] == NL {
        i + 5
    } else {
        i + 6
    }
}

/// Position of the first closing delimiter at or after `i`, or `s.len()`
/// if there is none.
pub open spec fn first_close_from(s: Seq<u8>, i: int) -> int
    decreases s.len() - i,
{
    if i >= s.len() {
        s.len() as int
    } else if is_close_at(s, i) {
        i
    } else {
        first_close_from(s, i + 1)
    }
}

proof fn lemma_first_close_at(s: Seq<u8>, from: int, i: int)
    requires
        0 <= from <= i <= s.len(),
        forall|k: int| from <= k < i ==> !is_close_at(s, k),
        i < s.len() ==> is_close_at(s, i),
    ensures
        first_close_from(s, from) == i,
    decreases i - from,
{
    if from == i {
        if i == s.len() {
        }
    } else {
        assert(!is_close_at(s, from));
        lemma_first_close_at(s, from + 1, i);
    }
}

/// The metadata block of `raw`, when the document opens with a delimiter
/// line that a closing delimiter matches; `None` otherwise.
pub open spec fn fm_block(raw: Seq<u8>) -> Option<Seq<u8>> {
    let t = strip_bom(raw);
    let ol = open_delim_len(t);
    if ol == 0 {
        None
    } else {
        let rest = t.skip(ol);
        let ye = first_close_from(rest, 0);
        if ye == rest.len() {
            None
        } else {
            Some(rest.subrange(0, ye))
        }
    }
}

/// The body of `raw`: everything after the closing delimiter and its line
/// break, or the whole input (byte-order mark stripped) when no front
/// matter is present.
pub open spec fn doc_body(raw: Seq<u8>) -> Seq<u8> {
    let t = strip_bom(raw);
    let ol = open_delim_len(t);
    if ol == 0 {
        t
    } else {
        let rest = t.skip(ol);
        let ye = first_close_from(rest, 0);
        if ye == rest.len() {
            t
        } else {
            rest.skip(content_start_at(rest, ye))
        }
    }
}

/// Find the closing `---` delimiter: the first `\n---` that is followed by
/// a line break or the end of input. Returns the end of the metadata text
/// and the start of the body.
pub fn find_close_delimiter(s: &[u8]) -> (r: Option<(usize, usize)>)
    ensures
        match r {
            Some(pair) => {
                &&& is_close_at(s@, pair.0 as int)
                &&& forall|j: int| 0 <= j < pair.0 ==> !is_close_at(s@, j)
                &&& pair.1 == content_start_at(s@, pair.0 as int)
                &&& pair.0 <= pair.1 <= s@.len()
            },
            None => forall|j: int| 0 <= j ==> !is_close_at(s@, j),
        },
{
    let mut pos: usize = 0;
    loop
        invariant
            0 <= pos <= s@.len(),
            forall|j: int| 0 <= j < pos ==> !is_close_at(s@, j),
        ensures
            forall|j: int| 0 <= j ==> !is_close_at(s@, j),
        decreases s@.len() - pos,
    {
        let nl = match find_byte(s, NL, pos) {
            Some(i) => i,
            None => {
                proof {
                    assert forall|j: int| 0 <= j implies !is_close_at(s@, j) by {
                        if pos <= j < s@.len() {
                            lemma_occurs_bytes(s@, close_pat(), j);
                        }
                        if j >= s@.len() {
                            lemma_occurs_bytes(s@, close_pat(), j);
                        }
                    }
                }
                return None;
            },
        };
        // `nl` is the first line feed at or after `pos`; positions between
        // carry no line feed, so no closing delimiter either.
        proof {
            assert forall|j: int| 0 <= j < nl implies !is_close_at(s@, j) by {
                if pos <= j {
                    lemma_occurs_bytes(s@, close_pat(), j);
                }
            }
        }
        let dashes_ok = s.len() - nl > 3 && s[nl + 1] == 45 && s[nl + 2] == 45 && s[nl + 3] == 45;
        if dashes_ok {
            proof {
                lemma_occurs_bytes(s@, close_pat(), nl as int);
            }
            if s.len() - nl == 4 {
                return Some((nl, nl + 4));
            }
            if s[nl + 4] == NL {
                return Some((nl, nl + 5));
            }
            if s[nl + 4] == CR && s.len() - nl > 5 && s[nl + 5] == NL {
                return Some((nl, nl + 6));
            }
        }
        proof {
            lemma_occurs_bytes(s@, close_pat(), nl as int);
            assert(!is_close_at(s@, nl as int));
        }
        pos = nl + 1;
    }
}

/// Split a raw document into front matter and body.
///
/// A leading byte-order mark is stripped. The document has front matter
/// only when it then begins with a `---` line; the block runs to the first
/// line holding exactly `---` (followed by a line break or the end of
/// input), and is parsed as YAML, parse failure degrading to empty
/// metadata. Without an opening or closing delimiter the whole text is
/// body and the metadata is empty.
#[verifier::loop_isolation(false)]
pub fn parse(raw: &[u8]) -> (r: ParsedDoc)
    ensures
        r.content@ == doc_body(raw@),
        match fm_block(raw@) {
            Some(b) => (
                opt_view(r.front_matter.title),
                opt_view(r.front_matter.summary),
                opt_view(r.front_matter.author),
                opt_view(r.front_matter.date),
            ) == yaml_fields(b),
            None => fm_is_empty(r.front_matter),
        },
{
    proof {
        lemma_prefix_bytes(raw@, bom());
    }
    let bom_len: usize = if raw.len() >= 3 && raw[0] == 0xEF && raw[1] == 0xBB && raw[2] == 0xBF {
        3
    } else {
        0
    };
    let t = &raw[bom_len..raw.len()];
    proof {
        assert(t@ =~= strip_bom(raw@));
        lemma_prefix_bytes(t@, seq![45u8, 45u8, 45u8, 10u8]);
        lemma_prefix_bytes(t@, seq![45u8, 45u8, 45u8, 13u8, 10u8]);
    }
    let dashes = t.len() >= 4 && t[0] == 45 && t[1] == 45 && t[2] == 45;
    let ol: usize = if dashes && t[3] == 10 {
        4
    } else if dashes && t[3] == 13 && t.len() >= 5 && t[4] == 10 {
        5
    } else {
        0
    };
    assert(ol == open_delim_len(t@));
    if ol == 0 {
        return ParsedDoc {
            front_matter: FrontMatter::default(),
            content: subvec(t, 0, t.len()),
        };
    }
    let rest = &t[ol..t.len()];
    proof {
        assert(rest@ =~= t@.skip(ol as int));
    }
    match find_close_delimiter(rest) {
        None => {
            proof {
                lemma_first_close_at(rest@, 0, rest@.len() as int);
            }
            ParsedDoc { front_matter: FrontMatter::default(), content: subvec(t, 0, t.len()) }
        },
        Some((ye, cs)) => {
            proof {
                lemma_first_close_at(rest@, 0, ye as int);
            }
            let block = subvec(rest, 0, ye);
            let content = subvec(rest, cs, rest.len());
            proof {
                assert(content@ =~= rest@.skip(cs as int));
            }
            ParsedDoc { front_matter: parse_yaml_block(block.as_slice()), content }
        },
    }
}

/// The first line whose trimmed form starts with `# ` and has non-empty
/// remaining text gives the title.
pub open spec fn title_from_lines(ls: Seq<Seq<u8>>) -> Option<Seq<u8>>
    decreases ls.len(),
{
    if ls.len() == 0 {
        None
    } else {
        let t = trim_spec(ls[0]);
        if has_prefix(t, seq![35u8, 32u8]) && trim_spec(t.skip(2)).len() > 0 {
            Some(trim_spec(t.skip(2)))
        } else {
            title_from_lines(ls.drop_first())
        }
    }
}

/// The title inferred from a body: the text of its first top-level
/// heading line, absent when there is none.
pub open spec fn inferred_title(content: Seq<u8>) -> Option<Seq<u8>> {
    title_from_lines(split_lines(content))
}

/// Infer a title from the first `# `-heading line of the body.
#[verifier::loop_isolation(false)]
pub fn infer_title(content: &[u8]) -> (r: Option<Vec<u8>>)
    ensures
        opt_view(r) == inferred_title(content@),
{
    let ls = lines(content);
    let ghost all = split_lines(content@);
    let mut i: usize = 0;
    proof {
        assert(all.skip(0) =~= all);
    }
    while i < ls.len()
        invariant
            0 <= i <= ls@.len(),
            seq_views(ls@) == all,
            all.len() == ls@.len(),
            title_from_lines(all) == title_from_lines(all.skip(i as int)),
        decreases ls@.len() - i,
    {
        proof {
            assert(all.skip(i as int)[0] == all[i as int]);
            assert(all[i as int] == ls@[i as int]@);
        }
        let t = trim(ls[i].as_slice());
        if t.len() >= 2 && t[0] == 35 && t[1] == 32 {
            proof {
                lemma_prefix_bytes(t@, seq![35u8, 32u8]);
                assert(t@.skip(2) =~= t@.subrange(2, t@.len() as int));
            }
            let rest = trim(&t.as_slice()[2..t.len()]);
            if rest.len() > 0 {
                return Some(rest);
            }
        } else {
            proof {
                lemma_prefix_bytes(t@, seq![35u8, 32u8]);
            }
        }
        proof {
            assert(all.skip(i as int).drop_first() =~= all.skip(i as int + 1));
        }
        i += 1;
    }
    proof {
        assert(all.skip(all.len() as int).len() == 0);
    }
    None
}

/// A Setext underline: a non-empty line of only `=` or `-` characters.
pub open spec fn setext_underline(t: Seq<u8>) -> bool {
    t.len() > 0 && forall|k: int| 0 <= k < t.len() ==> t[k] == 61 || t[k] == 45
}

/// One pass of the summary scanner over the remaining lines, carrying the
/// paragraph lines collected so far and the three line-class flags:
/// inside a paragraph, inside a fenced code block, and whether the
/// previous line was paragraph text.
pub open spec fn summary_scan(
    ls: Seq<Seq<u8>>,
    acc: Seq<Seq<u8>>,
    in_para: bool,
    in_code: bool,
    prev_text: bool,
) -> Seq<Seq<u8>>
    decreases ls.len(),
{
    if ls.len() == 0 {
        acc
    } else {
        let t = trim_spec(ls[0]);
        let rest = ls.drop_first();
        if has_prefix(t, seq![96u8, 96u8, 96u8]) {
            if in_para {
                acc
            } else {
                summary_scan(rest, acc, in_para, !in_code, false)
            }
        } else if in_code {
            summary_scan(rest, acc, in_para, in_code, prev_text)
        } else if t.len() == 0 {
            if in_para {
                acc
            } else {
                summary_scan(rest, acc, in_para, in_code, false)
            }
        } else if t[0] == 35 {
            if in_para {
                acc
            } else {
                summary_scan(rest, acc, in_para, in_code, false)
            }
        } else if prev_text && setext_underline(t) {
            summary_scan(rest, Seq::empty(), false, in_code, false)
        } else {
            summary_scan(rest, acc.push(t), true, in_code, true)
        }
    }
}

/// The summary inferred from a body: the first paragraph that is not a
/// heading, its lines joined with single spaces; absent when there is
/// none. Fenced code is skipped, and the title line of a Setext heading
/// is discarded rather than kept.
pub open spec fn inferred_summary(content: Seq<u8>) -> Option<Seq<u8>> {
    let parts = summary_scan(split_lines(content), Seq::empty(), false, false, false);
    if parts.len() == 0 {
        None
    } else {
        Some(join_spaces(parts))
    }
}

/// Infer a summary from the first non-heading paragraph of the body.
pub fn infer_summary(content: &[u8]) -> (r: Option<Vec<u8>>)
    ensures
        opt_view(r) == inferred_summary(content@),
{
    let ls = lines(content);
    let ghost all = split_lines(content@);
    let ghost result = summary_scan(all, Seq::empty(), false, false, false);
    let mut collected: Vec<Vec<u8>> = Vec::new();
    let mut in_para = false;
    let mut in_code = false;
    let mut prev_text = false;
    let mut i: usize = 0;
    proof {
        assert(seq_views(collected@) =~= Seq::<Seq<u8>>::empty());
        assert(all.skip(0) =~= all);
    }
    while i < ls.len()
        invariant_except_break
            0 <= i <= ls@.len(),
            seq_views(ls@) == all,
            all.len() == ls@.len(),
            result == summary_scan(
                all.skip(i as int),
                seq_views(collected@),
                in_para,
                in_code,
                prev_text,
            ),
        ensures
            result == seq_views(collected@),
        decreases ls@.len() - i,
    {
        proof {
            assert(all.skip(i as int)[0] == all[i as int]);
            assert(all[i as int] == ls@[i as int]@);
            assert(all.skip(i as int).drop_first() =~= all.skip(i as int + 1));
        }
        let t = trim(ls[i].as_slice());
        proof {
            lemma_prefix_bytes(t@, seq![96u8, 96u8, 96u8]);
        }
        let is_fence = t.len() >= 3 && t[0] == 96 && t[1] == 96 && t[2] == 96;
        if is_fence {
            if in_para {
                break ;
            }
            in_code = !in_code;
            prev_text = false;
        } else if in_code {
            // lines inside a fence are ignored
        } else if t.len() == 0 {
            if in_para {
                break ;
            }
            prev_text = false;
        } else if t[0] == 35 {
            if in_para {
                break ;
            }
            prev_text = false;
        } else {
            let mut all_marks = true;
            let mut k: usize = 0;
            while k < t.len()
                invariant
                    0 <= k <= t@.len(),
                    all_marks <==> forall|m: int| 0 <= m < k ==> t@[m] == 61 || t@[m] == 45,
                decreases t@.len() - k,
            {
                if t[k] != 61 && t[k] != 45 {
                    all_marks = false;
                }
                k += 1;
            }
            let is_setext = prev_text && all_marks;
            if is_setext {
                collected = Vec::new();
                in_para = false;
                prev_text = false;
                proof {
                    assert(seq_views(collected@) =~= Seq::<Seq<u8>>::empty());
                }
            } else {
                let ghost before = seq_views(collected@);
                let ghost tv = t@;
                collected.push(t);
                in_para = true;
                prev_text = true;
                proof {
                    assert(seq_views(collected@) =~= before.push(tv));
                }
            }
        }
        i += 1;
    }
    proof {
        if i == ls@.len() && !(i < ls@.len()) {
            assert(all.skip(i as int).len() == 0);
        }
    }
    if collected.len() == 0 {
        None
    } else {
        Some(join_with_spaces(&collected))
    }
}

/// A document that does not open with a delimiter line carries no front
/// matter: its metadata is empty and its whole text (byte-order mark
/// stripped) is the body, unchanged.
pub proof fn lemma_no_front_matter(raw: Seq<u8>)
    requires
        open_delim_len(strip_bom(raw)) == 0,
    ensures
        fm_block(raw) is None,
        doc_body(raw) == strip_bom(raw),
{
}

/// The title a document carries once parsing and inference are done: the
/// front-matter field, or failing that the first heading of the body.
pub open spec fn doc_title(raw: Seq<u8>) -> Option<Seq<u8>> {
    let from_fm = match fm_block(raw) {
        Some(b) => yaml_fields(b).0,
        None => None,
    };
    match from_fm {
        Some(t) => Some(t),
        None => inferred_title(doc_body(raw)),
    }
}

/// The summary a document carries once parsing and inference are done.
pub open spec fn doc_summary(raw: Seq<u8>) -> Option<Seq<u8>> {
    let from_fm = match fm_block(raw) {
        Some(b) => yaml_fields(b).1,
        None => None,
    };
    match from_fm {
        Some(s) => Some(s),
        None => inferred_summary(doc_body(raw)),
    }
}

/// The author a document names in its front matter; never inferred.
pub open spec fn doc_author(raw: Seq<u8>) -> Option<Seq<u8>> {
    match fm_block(raw) {
        Some(b) => yaml_fields(b).2,
        None => None,
    }
}

/// The date a document carries: the front-matter field, or failing that
/// the caller-supplied filesystem date.
pub open spec fn doc_date(raw: Seq<u8>, fs_date: Option<Seq<u8>>) -> Option<Seq<u8>> {
    let from_fm = match fm_block(raw) {
        Some(b) => yaml_fields(b).3,
        None => None,
    };
    match from_fm {
        Some(d) => Some(d),
        None => fs_date,
    }
}

/// Fill the fields left unset by the parser: title and summary from the
/// body, the date from the caller-supplied filesystem date.
pub fn fill_inferred(fm: &mut FrontMatter, content: &[u8], fs_date: Option<Vec<u8>>)
    ensures
        old(fm).title is Some ==> final(fm).title == old(fm).title,
        old(fm).title is None ==> opt_view(final(fm).title) == inferred_title(content@),
        old(fm).summary is Some ==> final(fm).summary == old(fm).summary,
        old(fm).summary is None ==> opt_view(final(fm).summary) == inferred_summary(content@),
        old(fm).date is Some ==> final(fm).date == old(fm).date,
        old(fm).date is None ==> final(fm).date == fs_date,
        final(fm).author == old(fm).author,
{
    if fm.title.is_none() {
        fm.title = infer_title(content);
    }
    if fm.summary.is_none() {
        fm.summary = infer_summary(content);
    }
    if fm.date.is_none() {
        fm.date = fs_date;
    }
}

} // verus!
