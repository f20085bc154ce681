//! RSS 2.0 feed assembly from listing entries.
//!
//! The feed is a single byte string; the contract gives it exactly, as a
//! concatenation of the scaffolding, the XML-escaped channel fields, and
//! one `<item>` per entry. With an absolute base URL the item links are
//! permalinks; otherwise they stay relative and are marked so.

use vstd::prelude::*;
use crate::listing::DirEntry;
use crate::render::{render, rendered_html, RenderMode};
use crate::resolve::len_sans_trailing_slashes;
use crate::text::{append, ascii_bytes, has_prefix, push_lit, starts_with, subvec, SLASH};

verus! {

/// One XML-escaped byte: the five characters special to XML become
/// entities, everything else stays.
pub open spec fn esc_byte(b: u8) -> Seq<u8> {
    if b == 38 {
        ascii_bytes("&amp;"@)
    } else if b == 60 {
        ascii_bytes("&lt;"@)
    } else if b == 62 {
        ascii_bytes("&gt;"@)
    } else if b == 34 {
        ascii_bytes("&quot;"@)
    } else if b == 39 {
        ascii_bytes("&apos;"@)
    } else {
        seq![b]
    }
}

/// `s` XML-escaped, byte by byte.
pub open spec fn esc_spec(s: Seq<u8>) -> Seq<u8>
    decreases s.len(),
{
    if s.len() == 0 {
        Seq::empty()
    } else {
        esc_byte(s[0]) + esc_spec(s.drop_first())
    }
}

/// XML-escape `s` for element content or attribute values.
#[verifier::loop_isolation(false)]
pub fn esc(s: &[u8]) -> (r: Vec<u8>)
    ensures
        r@ == esc_spec(s@),
{
    proof {
        reveal_strlit("&amp;");
        reveal_strlit("&lt;");
        reveal_strlit("&gt;");
        reveal_strlit("&quot;");
        reveal_strlit("&apos;");
    }
    let mut out: Vec<u8> = Vec::new();
    let mut i: usize = 0;
    proof {
        assert(s@.skip(0) =~= s@);
    }
    while i < s.len()
        invariant
            0 <= i <= s@.len(),
            out@ + esc_spec(s@.skip(i as int)) == esc_spec(s@),
        decreases s@.len() - i,
    {
        let ghost rest = s@.skip(i as int);
        proof {
            assert(rest[0] == s@[i as int]);
            assert(rest.drop_first() =~= s@.skip(i as int + 1));
        }
        let b = s[i];
        if b == 38 {
            push_lit(&mut out, "&amp;");
        } else if b == 60 {
            push_lit(&mut out, "&lt;");
        } else if b == 62 {
            push_lit(&mut out, "&gt;");
        } else if b == 34 {
            push_lit(&mut out, "&quot;");
        } else if b == 39 {
            push_lit(&mut out, "&apos;");
        } else {
            let ghost before = out@;
            out.push(b);
            proof {
                assert(out@ =~= before + esc_byte(b));
            }
        }
        i += 1;
        proof {
            assert(out@ + esc_spec(s@.skip(i as int)) =~= esc_spec(s@));
        }
    }
    proof {
        assert(esc_spec(s@.skip(s@.len() as int)) =~= Seq::<u8>::empty());
        assert(out@ + Seq::<u8>::empty() =~= out@);
    }
    out
}

/// What the date formatter produces from a `YYYY-MM-DD` date string: its
/// RFC 822 form at midnight UTC, or the input unchanged when it does not
/// parse as such a date. The result depends on the input bytes alone.
pub uninterp spec fn rfc822_of(date: Seq<u8>) -> Seq<u8>;

/// Relies on `chrono::NaiveDate::parse_from_str` with format `%Y-%m-%d`
/// and `NaiveDate::format` with `%a, %d %b %Y 00:00:00 +0000`: both
/// depend on the date string alone (chrono's day and month names are
/// fixed English). A string that does not parse comes back unchanged.
#[verifier::external_body]
fn to_rfc822(date: &[u8]) -> (r: Vec<u8>)
    ensures
        r@ == rfc822_of(date@),
{
    let Ok(s) = std::str::from_utf8(date) else { return date.to_vec() };
    match chrono::NaiveDate::parse_from_str(s, "%Y-%m-%d") {
        Ok(d) => d.format("%a, %d %b %Y 00:00:00 +0000").to_string().into_bytes(),
        Err(_) => date.to_vec(),
    }
}

/// The base URL carries an absolute origin.
pub open spec fn absolute_base(base_url: Seq<u8>) -> bool {
    has_prefix(base_url, ascii_bytes("http://"@)) || has_prefix(base_url, ascii_bytes("https://"@))
}

/// The title an item is shown under: its document title, or its name.
pub open spec fn item_title(e: DirEntry) -> Seq<u8> {
    match e.title {
        Some(t) => t@,
        None => e.display_name@,
    }
}

/// An item's link: its URL under the base (trailing slashes of the base
/// stripped).
pub open spec fn item_link(e: DirEntry, base_trim: Seq<u8>) -> Seq<u8> {
    base_trim + e.url@
}

/// The head of an `<item>` element: title, link and guid.
pub open spec fn item_head(e: DirEntry, base_trim: Seq<u8>, permalink: bool) -> Seq<u8> {
    let link = item_link(e, base_trim);
    ascii_bytes("  <item>\n    <title>"@) + esc_spec(item_title(e)) + ascii_bytes(
        "</title>\n    <link>"@,
    ) + esc_spec(link) + ascii_bytes("</link>\n    <guid isPermaLink=\""@) + (if permalink {
        ascii_bytes("true"@)
    } else {
        ascii_bytes("false"@)
    }) + ascii_bytes("\">"@) + esc_spec(link) + ascii_bytes("</guid>\n"@)
}

/// An item's description: the rendered document when its text is carried,
/// else the escaped summary, else nothing.
pub open spec fn item_desc(e: DirEntry) -> Seq<u8> {
    match e.content {
        Some(md) => ascii_bytes("    <description><![CDATA["@) + rendered_html(md@, true)
            + ascii_bytes("]]></description>\n"@),
        None => match e.summary {
            Some(s) => ascii_bytes("    <description>"@) + esc_spec(s@) + ascii_bytes(
                "</description>\n"@,
            ),
            None => Seq::empty(),
        },
    }
}

/// An item's publication date element, when it has a date.
pub open spec fn item_pubdate(e: DirEntry) -> Seq<u8> {
    match e.date {
        Some(d) => ascii_bytes("    <pubDate>"@) + rfc822_of(d@) + ascii_bytes("</pubDate>\n"@),
        None => Seq::empty(),
    }
}

/// An item's author element, when it names one.
pub open spec fn item_creator(e: DirEntry) -> Seq<u8> {
    match e.author {
        Some(a) => ascii_bytes("    <dc:creator>"@) + esc_spec(a@) + ascii_bytes(
            "</dc:creator>\n"@,
        ),
        None => Seq::empty(),
    }
}

/// The `<item>` element of one entry.
pub open spec fn item_xml(e: DirEntry, base_trim: Seq<u8>, permalink: bool) -> Seq<u8> {
    item_head(e, base_trim, permalink) + item_desc(e) + item_pubdate(e) + item_creator(e)
        + ascii_bytes("  </item>\n"@)
}

/// The items of the feed, in the order given.
pub open spec fn items_xml(items: Seq<DirEntry>, base_trim: Seq<u8>, permalink: bool) -> Seq<u8>
    decreases items.len(),
{
    if items.len() == 0 {
        Seq::empty()
    } else {
        item_xml(items[0], base_trim, permalink) + items_xml(
            items.drop_first(),
            base_trim,
            permalink,
        )
    }
}

/// The channel head: declaration, channel element, and the escaped
/// channel fields.
pub open spec fn feed_head(title: Seq<u8>, link: Seq<u8>, description: Seq<u8>) -> Seq<u8> {
    ascii_bytes(
        "<?xml version=\"1.0\" encoding=\"UTF-8\"?>\n<rss version=\"2.0\" xmlns:dc=\"http://purl.org/dc/elements/1.1/\">\n<channel>\n"@,
    ) + ascii_bytes("  <title>"@) + esc_spec(title) + ascii_bytes("</title>\n  <link>"@) + esc_spec(
        link,
    ) + ascii_bytes("</link>\n  <description>"@) + esc_spec(description) + ascii_bytes(
        "</description>\n"@,
    )
}

/// The complete feed.
pub open spec fn feed_xml(
    title: Seq<u8>,
    link: Seq<u8>,
    description: Seq<u8>,
    items: Seq<DirEntry>,
    base_url: Seq<u8>,
) -> Seq<u8> {
    let base_trim = base_url.take(len_sans_trailing_slashes(base_url));
    feed_head(title, link, description) + items_xml(items, base_trim, absolute_base(base_url))
        + ascii_bytes("</channel>\n</rss>"@)
}

/// Append the head of an `<item>` element.
#[verifier::rlimit(100)]
#[verifier::spinoff_prover]
fn push_item_head(out: &mut Vec<u8>, e: &DirEntry, base_trim: &[u8], permalink: bool)
    ensures
        final(out)@ == old(out)@ + item_head(*e, base_trim@, permalink),
{
    proof {
        reveal_strlit("  <item>\n    <title>");
        reveal_strlit("</title>\n    <link>");
        reveal_strlit("</link>\n    <guid isPermaLink=\"");
        reveal_strlit("true");
        reveal_strlit("false");
        reveal_strlit("\">");
        reveal_strlit("</guid>\n");
    }
    push_lit(out, "  <item>\n    <title>");
    let title = match &e.title {
        Some(t) => esc(t.as_slice()),
        None => esc(e.display_name.as_slice()),
    };
    append(out, title.as_slice());
    push_lit(out, "</title>\n    <link>");
    let mut link = subvec(base_trim, 0, base_trim.len());
    append(&mut link, e.url.as_slice());
    proof {
        assert(link@ =~= item_link(*e, base_trim@));
    }
    let elink = esc(link.as_slice());
    append(out, elink.as_slice());
    push_lit(out, "</link>\n    <guid isPermaLink=\"");
    if permalink {
        push_lit(out, "true");
    } else {
        push_lit(out, "false");
    }
    push_lit(out, "\">");
    append(out, elink.as_slice());
    push_lit(out, "</guid>\n");
    proof {
        assert(out@ =~= old(out)@ + item_head(*e, base_trim@, permalink));
    }
}

/// Append an item's description element.
#[verifier::spinoff_prover]
fn push_item_desc(out: &mut Vec<u8>, e: &DirEntry)
    ensures
        final(out)@ == old(out)@ + item_desc(*e),
{
    proof {
        reveal_strlit("    <description><![CDATA[");
        reveal_strlit("]]></description>\n");
        reveal_strlit("    <description>");
        reveal_strlit("</description>\n");
    }
    match &e.content {
        Some(md) => {
            push_lit(out, "    <description><![CDATA[");
            let html = render(md.as_slice(), RenderMode::Trusted);
            append(out, html.as_slice());
            push_lit(out, "]]></description>\n");
        },
        None => {
            match &e.summary {
                Some(s) => {
                    push_lit(out, "    <description>");
                    let es = esc(s.as_slice());
                    append(out, es.as_slice());
                    push_lit(out, "</description>\n");
                },
                None => {},
            }
        },
    }
    proof {
        assert(out@ =~= old(out)@ + item_desc(*e));
    }
}

/// Append an item's publication date element.
#[verifier::spinoff_prover]
fn push_item_pubdate(out: &mut Vec<u8>, e: &DirEntry)
    ensures
        final(out)@ == old(out)@ + item_pubdate(*e),
{
    proof {
        reveal_strlit("    <pubDate>");
        reveal_strlit("</pubDate>\n");
    }
    match &e.date {
        Some(dt) => {
            push_lit(out, "    <pubDate>");
            let rd = to_rfc822(dt.as_slice());
            append(out, rd.as_slice());
            push_lit(out, "</pubDate>\n");
        },
        None => {},
    }
    proof {
        assert(out@ =~= old(out)@ + item_pubdate(*e));
    }
}

/// Append an item's author element.
#[verifier::spinoff_prover]
fn push_item_creator(out: &mut Vec<u8>, e: &DirEntry)
    ensures
        final(out)@ == old(out)@ + item_creator(*e),
{
    proof {
        reveal_strlit("    <dc:creator>");
        reveal_strlit("</dc:creator>\n");
    }
    match &e.author {
        Some(a) => {
            push_lit(out, "    <dc:creator>");
            let ea = esc(a.as_slice());
            append(out, ea.as_slice());
            push_lit(out, "</dc:creator>\n");
        },
        None => {},
    }
    proof {
        assert(out@ =~= old(out)@ + item_creator(*e));
    }
}

/// Append the `<item>` element of one entry.
#[verifier::spinoff_prover]
fn push_item(out: &mut Vec<u8>, e: &DirEntry, base_trim: &[u8], permalink: bool)
    ensures
        final(out)@ == old(out)@ + item_xml(*e, base_trim@, permalink),
{
    proof {
        reveal_strlit("  </item>\n");
    }
    push_item_head(out, e, base_trim, permalink);
    push_item_desc(out, e);
    push_item_pubdate(out, e);
    push_item_creator(out, e);
    push_lit(out, "  </item>\n");
    proof {
        assert(out@ =~= old(out)@ + item_xml(*e, base_trim@, permalink));
    }
}

/// Append the channel head: declaration and escaped channel fields.
#[verifier::rlimit(100)]
#[verifier::spinoff_prover]
fn push_feed_head(out: &mut Vec<u8>, title: &[u8], link: &[u8], description: &[u8])
    ensures
        final(out)@ == old(out)@ + feed_head(title@, link@, description@),
{
    proof {
        reveal_strlit(
            "<?xml version=\"1.0\" encoding=\"UTF-8\"?>\n<rss version=\"2.0\" xmlns:dc=\"http://purl.org/dc/elements/1.1/\">\n<channel>\n",
        );
        reveal_strlit("  <title>");
        reveal_strlit("</title>\n  <link>");
        reveal_strlit("</link>\n  <description>");
        reveal_strlit("</description>\n");
    }
    push_lit(
        out,
        "<?xml version=\"1.0\" encoding=\"UTF-8\"?>\n<rss version=\"2.0\" xmlns:dc=\"http://purl.org/dc/elements/1.1/\">\n<channel>\n",
    );
    push_lit(out, "  <title>");
    let t = esc(title);
    append(out, t.as_slice());
    push_lit(out, "</title>\n  <link>");
    let l = esc(link);
    append(out, l.as_slice());
    push_lit(out, "</link>\n  <description>");
    let d = esc(description);
    append(out, d.as_slice());
    push_lit(out, "</description>\n");
    proof {
        assert(out@ =~= old(out)@ + feed_head(title@, link@, description@));
    }
}

/// Build a complete RSS 2.0 feed.
///
/// `base_url` should be an absolute origin such as `https://example.com`
/// (no trailing slash). When it is not, item links stay relative paths
/// and `<guid isPermaLink>` is `false`.
#[verifier::loop_isolation(false)]
pub fn build_feed(
    channel_title: &[u8],
    channel_link: &[u8],
    channel_description: &[u8],
    items: &Vec<DirEntry>,
    base_url: &[u8],
) -> (r: Vec<u8>)
    ensures
        r@ == feed_xml(channel_title@, channel_link@, channel_description@, items@, base_url@),
{
    let mut out: Vec<u8> = Vec::new();
    push_feed_head(&mut out, channel_title, channel_link, channel_description);
    // the base with trailing slashes stripped, and whether it is absolute
    let mut b: usize = base_url.len();
    while b > 0 && base_url[b - 1] == SLASH
        invariant
            0 <= b <= base_url@.len(),
            forall|k: int| b <= k < base_url@.len() ==> base_url@[k] == SLASH,
        decreases b,
    {
        b -= 1;
    }
    proof {
        crate::resolve::lemma_trailing_slashes_at(base_url@, b as int);
    }
    let base_trim = subvec(base_url, 0, b);
    proof {
        assert(base_trim@ =~= base_url@.take(len_sans_trailing_slashes(base_url@)));
    }
    proof {
        reveal_strlit("http://");
        reveal_strlit("https://");
    }
    let permalink = starts_with_lit(base_url, "http://") || starts_with_lit(base_url, "https://");
    proof {
        assert(permalink == absolute_base(base_url@));
    }
    let ghost head = out@;
    let ghost base_trim_g = base_trim@;
    let mut i: usize = 0;
    proof {
        assert(items@.skip(0) =~= items@);
    }
    while i < items.len()
        invariant
            0 <= i <= items@.len(),
            base_trim@ == base_trim_g,
            out@ + items_xml(items@.skip(i as int), base_trim_g, permalink) == head + items_xml(
                items@,
                base_trim_g,
                permalink,
            ),
        decreases items@.len() - i,
    {
        let ghost rest = items@.skip(i as int);
        proof {
            assert(rest[0] == items@[i as int]);
            assert(rest.drop_first() =~= items@.skip(i as int + 1));
        }
        push_item(&mut out, &items[i], base_trim.as_slice(), permalink);
        i += 1;
        proof {
            assert(out@ + items_xml(items@.skip(i as int), base_trim_g, permalink) =~= head
                + items_xml(items@, base_trim_g, permalink));
        }
    }
    proof {
        reveal_strlit("</channel>\n</rss>");
        assert(items_xml(items@.skip(items@.len() as int), base_trim_g, permalink)
            =~= Seq::<u8>::empty());
        assert(out@ =~= head + items_xml(items@, base_trim_g, permalink));
    }
    push_lit(&mut out, "</channel>\n</rss>");
    proof {
        assert(out@ =~= feed_xml(
            channel_title@,
            channel_link@,
            channel_description@,
            items@,
            base_url@,
        ));
    }
    out
}

/// Does `s` start with the bytes of an ASCII literal?
fn starts_with_lit(s: &[u8], lit: &str) -> (r: bool)
    requires
        lit.is_ascii(),
    ensures
        r == has_prefix(s@, ascii_bytes(lit@)),
{
    proof {
        broadcast use vstd::string::is_ascii_spec_bytes;
    }
    let b = lit.as_bytes();
    proof {
        assert(b@ =~= ascii_bytes(lit@));
    }
    starts_with(s, b)
}

} // verus!
