//! Request statistics for the dashboard, and the formatting that embeds
//! them in pages: thousands-grouped counts, and values serialized as
//! JavaScript literals safe to place inside a `<script>` block.

use vstd::prelude::*;
use crate::text::{append, ascii_bytes, join_sep, join_with_sep, push_lit, seq_views};

verus! {

/// Request counts over the recent windows shown on the dashboard.
#[derive(Clone, Copy, Debug)]
pub struct RequestStats {
    pub last_7m: i64,
    pub last_1h: i64,
    pub last_24h: i64,
}

/// One labelled count of an analytics series.
#[derive(Clone, Debug)]
pub struct AnalyticsRow {
    pub label: Vec<u8>,
    pub count: i64,
}

/// Everything the analytics view shows for one period length.
#[derive(Clone, Debug)]
pub struct AnalyticsData {
    pub days: i64,
    pub total_requests: i64,
    pub unique_visitors: i64,
    pub traffic_by_period: Vec<AnalyticsRow>,
    pub visitors_by_period: Vec<AnalyticsRow>,
    pub top_pages: Vec<AnalyticsRow>,
    pub top_referrers: Vec<AnalyticsRow>,
}

/// The decimal digits of `n`, most significant first.
pub open spec fn dec_digits(n: nat) -> Seq<u8>
    decreases n,
{
    if n < 10 {
        seq![(48 + n) as u8]
    } else {
        dec_digits(n / 10) + seq![(48 + n % 10) as u8]
    }
}

/// The decimal form of an integer, with a leading minus where negative.
pub open spec fn dec_int(n: int) -> Seq<u8> {
    if n < 0 {
        seq![45u8] + dec_digits((-n) as nat)
    } else {
        dec_digits(n as nat)
    }
}

/// Append the decimal digits of `n`.
fn push_dec(out: &mut Vec<u8>, n: u64)
    ensures
        final(out)@ == old(out)@ + dec_digits(n as nat),
    decreases n,
{
    if n < 10 {
        let ghost before = out@;
        out.push(48 + (n as u8));
        proof {
            assert(out@ =~= before + dec_digits(n as nat));
        }
    } else {
        push_dec(out, n / 10);
        let ghost before = out@;
        out.push(48 + ((n % 10) as u8));
        proof {
            assert((n % 10) as nat == (n as nat) % 10);
            assert((n / 10) as nat == (n as nat) / 10);
            assert(out@ =~= before + seq![(48 + (n as nat) % 10) as u8]);
            assert(out@ =~= old(out)@ + dec_digits(n as nat));
        }
    }
}

/// The decimal form of `n`, as bytes.
pub fn fmt_int(n: i64) -> (r: Vec<u8>)
    ensures
        r@ == dec_int(n as int),
{
    let mut out: Vec<u8> = Vec::new();
    if n < 0 {
        out.push(45);
        let mag: u64 = if n == i64::MIN {
            9223372036854775808u64
        } else {
            (-n) as u64
        };
        proof {
            assert(mag as nat == (-(n as int)) as nat);
            assert(out@ =~= seq![45u8]);
        }
        push_dec(&mut out, mag);
    } else {
        push_dec(&mut out, n as u64);
    }
    out
}

/// Digits grouped in threes from the right, separated by commas.
pub open spec fn grouped(s: Seq<u8>) -> Seq<u8>
    decreases s.len(),
{
    if s.len() <= 3 {
        s
    } else {
        grouped(s.take(s.len() - 3)) + seq![44u8] + s.skip(s.len() - 3)
    }
}

/// Append `s` grouped in threes from the right.
#[verifier::loop_isolation(false)]
fn push_grouped(out: &mut Vec<u8>, s: &[u8])
    ensures
        final(out)@ == old(out)@ + grouped(s@),
    decreases s@.len(),
{
    if s.len() <= 3 {
        append(out, s);
    } else {
        let cut = s.len() - 3;
        push_grouped(out, &s[0..cut]);
        let ghost mid = out@;
        out.push(44);
        append(out, &s[cut..s.len()]);
        proof {
            assert(s@.subrange(0, cut as int) =~= s@.take(s@.len() - 3));
            assert(s@.subrange(cut as int, s@.len() as int) =~= s@.skip(s@.len() - 3));
            assert(out@ =~= old(out)@ + grouped(s@));
        }
    }
}

/// A count formatted for display: decimal digits grouped in threes.
pub fn fmt_num(n: i64) -> (r: Vec<u8>)
    ensures
        r@ == grouped(dec_int(n as int)),
{
    let digits = fmt_int(n);
    let mut out: Vec<u8> = Vec::new();
    push_grouped(&mut out, digits.as_slice());
    proof {
        assert(out@ =~= grouped(dec_int(n as int)));
    }
    out
}

/// A lower-case hexadecimal digit.
pub open spec fn hex_digit(n: int) -> u8 {
    if n < 10 {
        (48 + n) as u8
    } else {
        (87 + n) as u8
    }
}

/// One byte escaped for a JavaScript string literal inside a `<script>`
/// block: quotes, backslashes and line breaks by their short escapes; the
/// characters that could close the surrounding tag (`<`, `>`, `&`) and
/// the remaining control bytes by `\u00..` escapes; everything else
/// stays.
pub open spec fn js_esc_byte(b: u8) -> Seq<u8> {
    if b == 34 {
        ascii_bytes("\\\""@)
    } else if b == 92 {
        ascii_bytes("\\\\"@)
    } else if b == 10 {
        ascii_bytes("\\n"@)
    } else if b == 13 {
        ascii_bytes("\\r"@)
    } else if b == 9 {
        ascii_bytes("\\t"@)
    } else if b == 60 {
        ascii_bytes("\\u003c"@)
    } else if b == 62 {
        ascii_bytes("\\u003e"@)
    } else if b == 38 {
        ascii_bytes("\\u0026"@)
    } else if b < 32 {
        ascii_bytes("\\u00"@) + seq![hex_digit(b as int / 16), hex_digit(b as int % 16)]
    } else {
        seq![b]
    }
}

/// A string escaped for a JavaScript literal. The UTF-8 encodings of the
/// line separator and paragraph separator characters, which would end a
/// line inside a script, become six-character escapes; every other byte
/// is escaped on its own.
pub open spec fn js_esc(s: Seq<u8>) -> Seq<u8>
    decreases s.len(),
{
    if s.len() == 0 {
        Seq::empty()
    } else if s.len() >= 3 && s[0] == 0xE2 && s[1] == 0x80 && (s[2] == 0xA8 || s[2] == 0xA9) {
        (if s[2] == 0xA8 {
            ascii_bytes("\\u2028"@)
        } else {
            ascii_bytes("\\u2029"@)
        }) + js_esc(s.skip(3))
    } else {
        js_esc_byte(s[0]) + js_esc(s.drop_first())
    }
}

/// A JavaScript string literal holding `s`, quotes included.
pub open spec fn js_string_spec(s: Seq<u8>) -> Seq<u8> {
    seq![34u8] + js_esc(s) + seq![34u8]
}

/// Serialize `s` as a JavaScript string literal safe to embed in HTML.
#[verifier::loop_isolation(false)]
#[verifier::rlimit(30)]
pub fn js_string(s: &[u8]) -> (r: Vec<u8>)
    ensures
        r@ == js_string_spec(s@),
{
    proof {
        reveal_strlit("\\\"");
        reveal_strlit("\\\\");
        reveal_strlit("\\n");
        reveal_strlit("\\r");
        reveal_strlit("\\t");
        reveal_strlit("\\u003c");
        reveal_strlit("\\u003e");
        reveal_strlit("\\u0026");
        reveal_strlit("\\u00");
        reveal_strlit("\\u2028");
        reveal_strlit("\\u2029");
    }
    let mut out: Vec<u8> = Vec::new();
    out.push(34);
    let ghost opened = out@;
    let mut i: usize = 0;
    proof {
        assert(s@.skip(0) =~= s@);
        assert(opened + js_esc(s@.skip(0)) =~= seq![34u8] + js_esc(s@));
    }
    while i < s.len()
        invariant
            0 <= i <= s@.len(),
            out@ + js_esc(s@.skip(i as int)) == seq![34u8] + js_esc(s@),
        decreases s@.len() - i,
    {
        let ghost rest = s@.skip(i as int);
        proof {
            assert(rest[0] == s@[i as int]);
            assert(rest.drop_first() =~= s@.skip(i as int + 1));
            if rest.len() >= 3 {
                assert(rest[1] == s@[i + 1]);
                assert(rest[2] == s@[i + 2]);
                assert(rest.skip(3) =~= s@.skip(i as int + 3));
            }
        }
        let b = s[i];
        if b == 0xE2 && s.len() - i >= 3 && s[i + 1] == 0x80 && (s[i + 2] == 0xA8 || s[i + 2]
            == 0xA9) {
            if s[i + 2] == 0xA8 {
                push_lit(&mut out, "\\u2028");
            } else {
                push_lit(&mut out, "\\u2029");
            }
            i += 3;
        } else {
            if b == 34 {
                push_lit(&mut out, "\\\"");
            } else if b == 92 {
                push_lit(&mut out, "\\\\");
            } else if b == 10 {
                push_lit(&mut out, "\\n");
            } else if b == 13 {
                push_lit(&mut out, "\\r");
            } else if b == 9 {
                push_lit(&mut out, "\\t");
            } else if b == 60 {
                push_lit(&mut out, "\\u003c");
            } else if b == 62 {
                push_lit(&mut out, "\\u003e");
            } else if b == 38 {
                push_lit(&mut out, "\\u0026");
            } else if b < 32 {
                push_lit(&mut out, "\\u00");
                let hi = b / 16;
                let lo = b % 16;
                out.push(if hi < 10 {
                    48 + hi
                } else {
                    87 + hi
                });
                out.push(if lo < 10 {
                    48 + lo
                } else {
                    87 + lo
                });
            } else {
                out.push(b);
            }
            proof {
                assert(js_esc(rest) == js_esc_byte(rest[0]) + js_esc(rest.drop_first()));
            }
            i += 1;
        }
        proof {
            assert(out@ + js_esc(s@.skip(i as int)) =~= seq![34u8] + js_esc(s@));
        }
    }
    proof {
        assert(js_esc(s@.skip(s@.len() as int)) =~= Seq::<u8>::empty());
        assert(out@ =~= seq![34u8] + js_esc(s@));
    }
    out.push(34);
    proof {
        assert(out@ =~= js_string_spec(s@));
    }
    out
}

/// The labels of the rows, as serialized literals.
pub open spec fn row_labels(rows: Seq<AnalyticsRow>) -> Seq<Seq<u8>> {
    rows.map_values(|r: AnalyticsRow| js_string_spec(r.label@))
}

/// The counts of the rows, in decimal.
pub open spec fn row_counts(rows: Seq<AnalyticsRow>) -> Seq<Seq<u8>> {
    rows.map_values(|r: AnalyticsRow| dec_int(r.count as int))
}

/// The decimal forms of the values.
pub open spec fn int_strings(values: Seq<i64>) -> Seq<Seq<u8>> {
    values.map_values(|n: i64| dec_int(n as int))
}

/// A JavaScript array literal of the given element literals.
pub open spec fn js_array(elems: Seq<Seq<u8>>) -> Seq<u8> {
    seq![91u8] + join_sep(elems, 44) + seq![93u8]
}

/// Wrap already serialized elements in a JavaScript array literal.
fn js_array_exec(elems: &Vec<Vec<u8>>) -> (r: Vec<u8>)
    ensures
        r@ == js_array(seq_views(elems@)),
{
    let mut out: Vec<u8> = Vec::new();
    out.push(91);
    let joined = join_with_sep(elems, 44);
    append(&mut out, joined.as_slice());
    out.push(93);
    proof {
        assert(out@ =~= js_array(seq_views(elems@)));
    }
    out
}

/// The rows' labels as a JavaScript array of string literals.
#[verifier::loop_isolation(false)]
pub fn js_strings(rows: &Vec<AnalyticsRow>) -> (r: Vec<u8>)
    ensures
        r@ == js_array(row_labels(rows@)),
{
    let mut elems: Vec<Vec<u8>> = Vec::new();
    let mut i: usize = 0;
    while i < rows.len()
        invariant
            0 <= i <= rows@.len(),
            elems@.len() == i,
            forall|k: int| 0 <= k < i ==> elems@[k]@ == row_labels(rows@)[k],
        decreases rows@.len() - i,
    {
        elems.push(js_string(rows[i].label.as_slice()));
        i += 1;
    }
    let r = js_array_exec(&elems);
    proof {
        assert(seq_views(elems@) =~= row_labels(rows@));
    }
    r
}

/// The rows' counts as a JavaScript array of numbers.
#[verifier::loop_isolation(false)]
pub fn js_numbers(rows: &Vec<AnalyticsRow>) -> (r: Vec<u8>)
    ensures
        r@ == js_array(row_counts(rows@)),
{
    let mut elems: Vec<Vec<u8>> = Vec::new();
    let mut i: usize = 0;
    while i < rows.len()
        invariant
            0 <= i <= rows@.len(),
            elems@.len() == i,
            forall|k: int| 0 <= k < i ==> elems@[k]@ == row_counts(rows@)[k],
        decreases rows@.len() - i,
    {
        elems.push(fmt_int(rows[i].count));
        i += 1;
    }
    let r = js_array_exec(&elems);
    proof {
        assert(seq_views(elems@) =~= row_counts(rows@));
    }
    r
}

/// Plain values as a JavaScript array of numbers.
#[verifier::loop_isolation(false)]
pub fn js_numbers_raw(values: &Vec<i64>) -> (r: Vec<u8>)
    ensures
        r@ == js_array(int_strings(values@)),
{
    let mut elems: Vec<Vec<u8>> = Vec::new();
    let mut i: usize = 0;
    while i < values.len()
        invariant
            0 <= i <= values@.len(),
            elems@.len() == i,
            forall|k: int| 0 <= k < i ==> elems@[k]@ == int_strings(values@)[k],
        decreases values@.len() - i,
    {
        elems.push(fmt_int(values[i]));
        i += 1;
    }
    let r = js_array_exec(&elems);
    proof {
        assert(seq_views(elems@) =~= int_strings(values@));
    }
    r
}

} // verus!
