//! Byte-string toolkit: searching, trimming, line splitting, joining and
//! lexicographic comparison, with the spec functions the rest of the
//! library states its contracts over.

use vstd::prelude::*;

verus! {

/// Line feed.
pub const NL: u8 = 10;

/// Forward slash, the path separator of this library's path model.
pub const SLASH: u8 = 47;

/// The views of a sequence of byte vectors.
pub open spec fn seq_views(vs: Seq<Vec<u8>>) -> Seq<Seq<u8>> {
    Seq::new(vs.len(), |i: int| vs[i]@)
}

/// A byte treated as blank when trimming: space, tab, carriage return,
/// line feed.
pub open spec fn is_blank_byte(b: u8) -> bool {
    b == 32 || b == 9 || b == 13 || b == 10
}

/// `pat` occurs in `s` at position `i`.
pub open spec fn occurs_at(s: Seq<u8>, pat: Seq<u8>, i: int) -> bool {
    0 <= i && i + pat.len() <= s.len() && s.subrange(i, i + pat.len()) == pat
}

/// True iff `prefix` is a prefix of `s`.
pub open spec fn has_prefix(s: Seq<u8>, prefix: Seq<u8>) -> bool {
    prefix.len() <= s.len() && s.subrange(0, prefix.len() as int) == prefix
}

/// True iff `suffix` is a suffix of `s`.
pub open spec fn has_suffix(s: Seq<u8>, suffix: Seq<u8>) -> bool {
    suffix.len() <= s.len() && s.subrange(s.len() - suffix.len(), s.len() as int) == suffix
}

/// A prefix holds exactly when the bytes match pointwise.
pub proof fn lemma_prefix_bytes(s: Seq<u8>, p: Seq<u8>)
    ensures
        has_prefix(s, p) <==> (p.len() <= s.len() && forall|k: int| 0 <= k < p.len() ==> s[k]
            == p[k]),
{
    if p.len() <= s.len() {
        if forall|k: int| 0 <= k < p.len() ==> s[k] == p[k] {
            assert(s.subrange(0, p.len() as int) =~= p);
        }
        if has_prefix(s, p) {
            assert forall|k: int| 0 <= k < p.len() implies s[k] == p[k] by {
                assert(s.subrange(0, p.len() as int)[k] == s[k]);
            }
        }
    }
}

/// A suffix holds exactly when the bytes match pointwise.
pub proof fn lemma_suffix_bytes(s: Seq<u8>, p: Seq<u8>)
    ensures
        has_suffix(s, p) <==> (p.len() <= s.len() && forall|k: int| 0 <= k < p.len() ==> s[s.len()
            - p.len() + k] == p[k]),
{
    if p.len() <= s.len() {
        if forall|k: int| 0 <= k < p.len() ==> s[s.len() - p.len() + k] == p[k] {
            assert(s.subrange(s.len() - p.len(), s.len() as int) =~= p);
        }
        if has_suffix(s, p) {
            assert forall|k: int| 0 <= k < p.len() implies s[s.len() - p.len() + k] == p[k] by {
                assert(s.subrange(s.len() - p.len(), s.len() as int)[k] == s[s.len() - p.len()
                    + k]);
            }
        }
    }
}

/// An occurrence holds exactly when the bytes match pointwise.
pub proof fn lemma_occurs_bytes(s: Seq<u8>, p: Seq<u8>, i: int)
    ensures
        occurs_at(s, p, i) <==> (0 <= i && i + p.len() <= s.len() && forall|k: int|
            0 <= k < p.len() ==> s[i + k] == p[k]),
{
    if 0 <= i && i + p.len() <= s.len() {
        if forall|k: int| 0 <= k < p.len() ==> s[i + k] == p[k] {
            assert(s.subrange(i, i + p.len()) =~= p);
        }
        if occurs_at(s, p, i) {
            assert forall|k: int| 0 <= k < p.len() implies s[i + k] == p[k] by {
                assert(s.subrange(i, i + p.len())[k] == s[i + k]);
            }
        }
    }
}

#[verifier::loop_isolation(false)]
pub fn starts_with(s: &[u8], prefix: &[u8]) -> (r: bool)
    ensures
        r == has_prefix(s@, prefix@),
{
    if prefix.len() > s.len() {
        return false;
    }
    let mut i: usize = 0;
    while i < prefix.len()
        invariant
            i <= prefix@.len() <= s@.len(),
            forall|k: int| 0 <= k < i ==> s@[k] == prefix@[k],
        decreases prefix@.len() - i,
    {
        if s[i] != prefix[i] {
            assert(s@.subrange(0, prefix@.len() as int)[i as int] != prefix@[i as int]);
            return false;
        }
        i += 1;
    }
    assert(s@.subrange(0, prefix@.len() as int) =~= prefix@);
    true
}

#[verifier::loop_isolation(false)]
pub fn eq_bytes(a: &[u8], b: &[u8]) -> (r: bool)
    ensures
        r == (a@ == b@),
{
    if a.len() != b.len() {
        assert(a@.len() != b@.len());
        return false;
    }
    let mut i: usize = 0;
    while i < a.len()
        invariant
            i <= a@.len(),
            a@.len() == b@.len(),
            forall|k: int| 0 <= k < i ==> a@[k] == b@[k],
        decreases a@.len() - i,
    {
        if a[i] != b[i] {
            return false;
        }
        i += 1;
    }
    assert(a@ =~= b@);
    true
}

/// First position `>= from` where byte `b` occurs in `s`, if any.
#[verifier::loop_isolation(false)]
pub fn find_byte(s: &[u8], b: u8, from: usize) -> (r: Option<usize>)
    ensures
        match r {
            Some(i) => from <= i < s@.len() && s@[i as int] == b && forall|j: int|
                from <= j < i ==> s@[j] != b,
            None => forall|j: int| from <= j < s@.len() ==> s@[j] != b,
        },
{
    let mut i: usize = from;
    if from > s.len() {
        return None;
    }
    while i < s.len()
        invariant
            from <= i <= s@.len(),
            forall|j: int| from <= j < i ==> s@[j] != b,
        decreases s@.len() - i,
    {
        if s[i] == b {
            return Some(i);
        }
        i += 1;
    }
    None
}

/// Copy of `s[from..to]` as an owned vector.
pub fn subvec(s: &[u8], from: usize, to: usize) -> (r: Vec<u8>)
    requires
        from <= to <= s@.len(),
    ensures
        r@ == s@.subrange(from as int, to as int),
{
    vstd::slice::slice_to_vec(&s[from..to])
}

pub fn is_blank(b: u8) -> (r: bool)
    ensures
        r == is_blank_byte(b),
{
    b == 32 || b == 9 || b == 13 || b == 10
}

/// `s` with leading blank bytes removed.
pub open spec fn trim_start_spec(s: Seq<u8>) -> Seq<u8>
    decreases s.len(),
{
    if s.len() > 0 && is_blank_byte(s[0]) {
        trim_start_spec(s.drop_first())
    } else {
        s
    }
}

/// `s` with trailing blank bytes removed.
pub open spec fn trim_end_spec(s: Seq<u8>) -> Seq<u8>
    decreases s.len(),
{
    if s.len() > 0 && is_blank_byte(s.last()) {
        trim_end_spec(s.drop_last())
    } else {
        s
    }
}

/// `s` with blank bytes removed from both ends.
pub open spec fn trim_spec(s: Seq<u8>) -> Seq<u8> {
    trim_end_spec(trim_start_spec(s))
}

proof fn lemma_trim_start_range(s: Seq<u8>, i: int)
    requires
        0 <= i <= s.len(),
        forall|k: int| 0 <= k < i ==> is_blank_byte(s[k]),
        i < s.len() ==> !is_blank_byte(s[i]),
    ensures
        trim_start_spec(s) == s.subrange(i, s.len() as int),
    decreases i,
{
    if i == 0 {
        assert(s.subrange(0, s.len() as int) =~= s);
    } else {
        assert(is_blank_byte(s[0]));
        lemma_trim_start_range(s.drop_first(), i - 1);
        assert(s.drop_first().subrange(i - 1, s.drop_first().len() as int) =~= s.subrange(
            i,
            s.len() as int,
        ));
    }
}

proof fn lemma_trim_end_range(s: Seq<u8>, j: int)
    requires
        0 <= j <= s.len(),
        forall|k: int| j <= k < s.len() ==> is_blank_byte(s[k]),
        j > 0 ==> !is_blank_byte(s[j - 1]),
    ensures
        trim_end_spec(s) == s.subrange(0, j),
    decreases s.len() - j,
{
    if j == s.len() {
        assert(s.subrange(0, s.len() as int) =~= s);
    } else {
        assert(is_blank_byte(s.last()));
        lemma_trim_end_range(s.drop_last(), j);
        assert(s.drop_last().subrange(0, j) =~= s.subrange(0, j));
    }
}

/// Trim blank bytes from both ends of `s`.
#[verifier::loop_isolation(false)]
pub fn trim(s: &[u8]) -> (r: Vec<u8>)
    ensures
        r@ == trim_spec(s@),
{
    let mut a: usize = 0;
    while a < s.len() && is_blank(s[a])
        invariant
            a <= s@.len(),
            forall|k: int| 0 <= k < a ==> is_blank_byte(s@[k]),
        decreases s@.len() - a,
    {
        a += 1;
    }
    proof {
        lemma_trim_start_range(s@, a as int);
    }
    let ghost t = s@.subrange(a as int, s@.len() as int);
    let mut b: usize = s.len();
    while b > a && is_blank(s[b - 1])
        invariant
            a <= b <= s@.len(),
            forall|k: int| b <= k < s@.len() ==> is_blank_byte(s@[k]),
        decreases b,
    {
        b -= 1;
    }
    proof {
        assert forall|k: int| (b - a) <= k < t.len() implies is_blank_byte(t[k]) by {
            assert(t[k] == s@[a + k]);
        }
        if b > a {
            assert(t[b - a - 1] == s@[b - 1]);
        }
        lemma_trim_end_range(t, b - a);
        assert(t.subrange(0, b - a) =~= s@.subrange(a as int, b as int));
    }
    subvec(s, a, b)
}

/// Position of the first line feed in `s`, or `s.len()` if none.
pub open spec fn first_nl(s: Seq<u8>) -> int
    decreases s.len(),
{
    if s.len() == 0 {
        0
    } else if s[0] == NL {
        0
    } else {
        1 + first_nl(s.drop_first())
    }
}

proof fn lemma_first_nl_at(s: Seq<u8>, i: int)
    requires
        0 <= i <= s.len(),
        forall|k: int| 0 <= k < i ==> s[k] != NL,
        i < s.len() ==> s[i] == NL,
    ensures
        first_nl(s) == i,
    decreases i,
{
    if s.len() == 0 {
    } else if s[0] == NL {
        assert(i == 0);
    } else {
        assert(i >= 1);
        lemma_first_nl_at(s.drop_first(), i - 1);
    }
}

/// `s` split into lines at line feeds. An empty input has no lines; a
/// trailing line feed does not produce an extra empty line.
pub open spec fn split_lines(s: Seq<u8>) -> Seq<Seq<u8>>
    decreases s.len(),
{
    if s.len() == 0 {
        Seq::empty()
    } else {
        let i = first_nl(s);
        if 0 <= i < s.len() {
            seq![s.subrange(0, i)] + split_lines(s.subrange(i + 1, s.len() as int))
        } else {
            seq![s]
        }
    }
}

/// Split `s` into lines at line feeds, as owned vectors.
#[verifier::loop_isolation(false)]
pub fn lines(s: &[u8]) -> (r: Vec<Vec<u8>>)
    ensures
        seq_views(r@) == split_lines(s@),
{
    let mut out: Vec<Vec<u8>> = Vec::new();
    let mut pos: usize = 0;
    let ghost mut done: Seq<Seq<u8>> = Seq::empty();
    proof {
        assert(s@.subrange(0, s@.len() as int) =~= s@);
    }
    while pos < s.len()
        invariant
            pos <= s@.len(),
            done + split_lines(s@.subrange(pos as int, s@.len() as int)) == split_lines(s@),
            pos == s@.len() ==> done == split_lines(s@),
            out@.len() == done.len(),
            forall|k: int| 0 <= k < done.len() ==> out@[k]@ == done[k],
        decreases s@.len() - pos,
    {
        let ghost rest = s@.subrange(pos as int, s@.len() as int);
        let nl = match find_byte(s, NL, pos) {
            Some(i) => i,
            None => s.len(),
        };
        proof {
            if nl < s@.len() {
                assert(rest[nl - pos] == NL);
                assert forall|k: int| 0 <= k < nl - pos implies rest[k] != NL by {
                    assert(rest[k] == s@[pos + k]);
                }
                lemma_first_nl_at(rest, nl - pos);
            } else {
                assert forall|k: int| 0 <= k < rest.len() implies rest[k] != NL by {
                    assert(rest[k] == s@[pos + k]);
                }
                lemma_first_nl_at(rest, rest.len() as int);
            }
        }
        let line = subvec(s, pos, nl);
        proof {
            assert(line@ =~= rest.subrange(0, nl - pos));
        }
        out.push(line);
        proof {
            done = done.push(line@);
        }
        if nl == s.len() {
            proof {
                assert(rest.subrange(0, rest.len() as int) =~= rest);
                assert(split_lines(rest) == seq![rest]);
                assert(done + split_lines(s@.subrange(s@.len() as int, s@.len() as int))
                    =~= split_lines(s@));
                assert(done =~= split_lines(s@));
            }
            pos = s.len();
        } else {
            proof {
                assert(split_lines(rest) == seq![rest.subrange(0, nl - pos)] + split_lines(
                    rest.subrange(nl + 1 - pos, rest.len() as int),
                ));
                assert(rest.subrange(nl + 1 - pos, rest.len() as int) =~= s@.subrange(
                    nl + 1,
                    s@.len() as int,
                ));
                assert(done + split_lines(s@.subrange(nl + 1, s@.len() as int)) =~= split_lines(
                    s@,
                ));
            }
            pos = nl + 1;
        }
    }
    proof {
        assert(seq_views(out@) =~= done);
    }
    out
}

/// `parts` joined with the single byte `sep` between consecutive parts.
pub open spec fn join_sep(parts: Seq<Seq<u8>>, sep: u8) -> Seq<u8>
    decreases parts.len(),
{
    if parts.len() == 0 {
        Seq::empty()
    } else if parts.len() == 1 {
        parts[0]
    } else {
        parts[0] + seq![sep] + join_sep(parts.drop_first(), sep)
    }
}

/// `parts` joined with a single space between consecutive parts.
pub open spec fn join_spaces(parts: Seq<Seq<u8>>) -> Seq<u8> {
    join_sep(parts, 32)
}

/// What remains of the join after the first `i` parts (including the
/// separator that precedes part `i`, when one does).
pub open spec fn join_sep_tail(parts: Seq<Seq<u8>>, i: int, sep: u8) -> Seq<u8> {
    if i >= parts.len() {
        Seq::empty()
    } else {
        seq![sep] + join_sep(parts.skip(i), sep)
    }
}

proof fn lemma_join_head(parts: Seq<Seq<u8>>, sep: u8)
    requires
        parts.len() > 0,
    ensures
        parts[0] + join_sep_tail(parts, 1, sep) =~= join_sep(parts, sep),
{
    if parts.len() == 1 {
    } else {
        assert(parts.skip(1) =~= parts.drop_first());
    }
}

proof fn lemma_join_tail_step(parts: Seq<Seq<u8>>, i: int, sep: u8)
    requires
        1 <= i < parts.len(),
    ensures
        seq![sep] + parts[i] + join_sep_tail(parts, i + 1, sep) =~= join_sep_tail(parts, i, sep),
{
    let rest = parts.skip(i);
    assert(rest[0] == parts[i]);
    if i + 1 < parts.len() {
        assert(rest.drop_first() =~= parts.skip(i + 1));
        assert(join_sep(rest, sep) == rest[0] + seq![sep] + join_sep(rest.drop_first(), sep));
    } else {
        assert(rest.len() == 1);
        assert(join_sep(rest, sep) == rest[0]);
    }
}

/// Append all of `src` to `dst`.
#[verifier::loop_isolation(false)]
pub fn append(dst: &mut Vec<u8>, src: &[u8])
    ensures
        final(dst)@ == old(dst)@ + src@,
{
    let mut i: usize = 0;
    while i < src.len()
        invariant
            i <= src@.len(),
            dst@ =~= old(dst)@ + src@.subrange(0, i as int),
        decreases src@.len() - i,
    {
        dst.push(src[i]);
        i += 1;
        proof {
            assert(dst@ =~= old(dst)@ + src@.subrange(0, i as int));
        }
    }
    proof {
        assert(src@.subrange(0, src@.len() as int) =~= src@);
        assert(dst@ =~= old(dst)@ + src@);
    }
}

/// Join `parts` with the single byte `sep`.
#[verifier::loop_isolation(false)]
pub fn join_with_sep(parts: &Vec<Vec<u8>>, sep: u8) -> (r: Vec<u8>)
    ensures
        r@ == join_sep(seq_views(parts@), sep),
{
    let ghost views = seq_views(parts@);
    let mut out: Vec<u8> = Vec::new();
    let mut i: usize = 0;
    while i < parts.len()
        invariant
            i <= parts@.len(),
            views == seq_views(parts@),
            views.len() == parts@.len(),
            i == 0 ==> out@.len() == 0,
            i > 0 ==> out@ + join_sep_tail(views, i as int, sep) =~= join_sep(views, sep),
        decreases parts@.len() - i,
    {
        proof {
            assert(views[i as int] == parts@[i as int]@);
        }
        if i > 0 {
            out.push(sep);
        }
        append(&mut out, parts[i].as_slice());
        proof {
            if i == 0 {
                lemma_join_head(views, sep);
                assert(out@ =~= views[0]);
            } else {
                lemma_join_tail_step(views, i as int, sep);
            }
            assert(out@ + join_sep_tail(views, i + 1, sep) =~= join_sep(views, sep));
        }
        i += 1;
    }
    proof {
        if parts@.len() == 0 {
            assert(out@ =~= join_sep(views, sep));
        } else {
            assert(join_sep_tail(views, parts@.len() as int, sep) =~= Seq::<u8>::empty());
            assert(out@ + Seq::<u8>::empty() =~= out@);
        }
    }
    out
}

/// Join `parts` with single spaces.
pub fn join_with_spaces(parts: &Vec<Vec<u8>>) -> (r: Vec<u8>)
    ensures
        r@ == join_spaces(seq_views(parts@)),
{
    join_with_sep(parts, 32)
}

/// The bytes of an ASCII character sequence, character by character.
pub open spec fn ascii_bytes(cs: Seq<char>) -> Seq<u8> {
    Seq::new(cs.len(), |i: int| cs[i] as u8)
}

/// Append the bytes of an ASCII string literal.
pub fn push_lit(out: &mut Vec<u8>, s: &str)
    requires
        s.is_ascii(),
    ensures
        final(out)@ == old(out)@ + ascii_bytes(s@),
{
    proof {
        broadcast use vstd::string::is_ascii_spec_bytes;
    }
    let b = s.as_bytes();
    proof {
        assert(b@ =~= ascii_bytes(s@));
    }
    append(out, b);
}

/// Lexicographic byte order: `a <= b`.
pub open spec fn lex_leq(a: Seq<u8>, b: Seq<u8>) -> bool
    decreases a.len(),
{
    if a.len() == 0 {
        true
    } else if b.len() == 0 {
        false
    } else if a[0] < b[0] {
        true
    } else if a[0] > b[0] {
        false
    } else {
        lex_leq(a.drop_first(), b.drop_first())
    }
}

pub proof fn lemma_lex_leq_total(a: Seq<u8>, b: Seq<u8>)
    ensures
        lex_leq(a, b) || lex_leq(b, a),
    decreases a.len(),
{
    if a.len() == 0 || b.len() == 0 {
    } else if a[0] == b[0] {
        lemma_lex_leq_total(a.drop_first(), b.drop_first());
    }
}

pub proof fn lemma_lex_leq_trans(a: Seq<u8>, b: Seq<u8>, c: Seq<u8>)
    requires
        lex_leq(a, b),
        lex_leq(b, c),
    ensures
        lex_leq(a, c),
    decreases a.len(),
{
    if a.len() == 0 || b.len() == 0 || c.len() == 0 {
    } else if a[0] == b[0] && b[0] == c[0] {
        lemma_lex_leq_trans(a.drop_first(), b.drop_first(), c.drop_first());
    }
}

proof fn lemma_lex_skip_step(a: Seq<u8>, b: Seq<u8>, i: int)
    requires
        0 <= i,
        i < a.len(),
        i < b.len(),
        a[i] == b[i],
    ensures
        lex_leq(a.skip(i), b.skip(i)) == lex_leq(a.skip(i + 1), b.skip(i + 1)),
{
    assert(a.skip(i).drop_first() =~= a.skip(i + 1));
    assert(b.skip(i).drop_first() =~= b.skip(i + 1));
    assert(a.skip(i)[0] == a[i]);
    assert(b.skip(i)[0] == b[i]);
}

/// Lexicographic comparison, `a <= b`.
#[verifier::loop_isolation(false)]
pub fn lex_leq_bytes(a: &[u8], b: &[u8]) -> (r: bool)
    ensures
        r == lex_leq(a@, b@),
{
    let min = if a.len() < b.len() {
        a.len()
    } else {
        b.len()
    };
    let mut i: usize = 0;
    proof {
        assert(a@.skip(0) =~= a@);
        assert(b@.skip(0) =~= b@);
    }
    while i < min
        invariant
            i <= min,
            min == if a@.len() < b@.len() {
                a@.len()
            } else {
                b@.len()
            },
            lex_leq(a@, b@) == lex_leq(a@.skip(i as int), b@.skip(i as int)),
        decreases min - i,
    {
        proof {
            assert(a@.skip(i as int)[0] == a@[i as int]);
            assert(b@.skip(i as int)[0] == b@[i as int]);
        }
        if a[i] < b[i] {
            return true;
        }
        if a[i] > b[i] {
            return false;
        }
        proof {
            lemma_lex_skip_step(a@, b@, i as int);
        }
        i += 1;
    }
    proof {
        let ar = a@.skip(i as int);
        let br = b@.skip(i as int);
        if a@.len() <= b@.len() {
            assert(ar.len() == 0);
        } else {
            assert(br.len() == 0 && ar.len() > 0);
        }
    }
    a.len() <= b.len()
}

/// Position of the first occurrence of `b` in `s`, or `s.len()` when
/// there is none.
pub open spec fn first_index_of(s: Seq<u8>, b: u8) -> int
    decreases s.len(),
{
    if s.len() == 0 {
        0
    } else if s[0] == b {
        0
    } else {
        1 + first_index_of(s.drop_first(), b)
    }
}

pub proof fn lemma_first_index_of_at(s: Seq<u8>, b: u8, i: int)
    requires
        0 <= i <= s.len(),
        forall|k: int| 0 <= k < i ==> s[k] != b,
        i < s.len() ==> s[i] == b,
    ensures
        first_index_of(s, b) == i,
    decreases i,
{
    if s.len() == 0 {
    } else if s[0] == b {
        assert(i == 0);
    } else {
        assert(i >= 1);
        lemma_first_index_of_at(s.drop_first(), b, i - 1);
    }
}

/// Index of the last occurrence of `b` in `s`, or `-1` when there is
/// none.
pub open spec fn last_index_of(s: Seq<u8>, b: u8) -> int
    decreases s.len(),
{
    if s.len() == 0 {
        -1
    } else if s.last() == b {
        s.len() - 1
    } else {
        last_index_of(s.drop_last(), b)
    }
}

pub proof fn lemma_last_index_of(s: Seq<u8>, b: u8)
    ensures
        -1 <= last_index_of(s, b) < s.len(),
        forall|k: int| last_index_of(s, b) < k < s.len() ==> s[k] != b,
        last_index_of(s, b) >= 0 ==> s[last_index_of(s, b)] == b,
    decreases s.len(),
{
    if s.len() == 0 {
    } else if s.last() == b {
    } else {
        lemma_last_index_of(s.drop_last(), b);
        assert forall|k: int| last_index_of(s, b) < k < s.len() implies s[k] != b by {
            if k < s.len() - 1 {
                assert(s.drop_last()[k] == s[k]);
            }
        }
        if last_index_of(s, b) >= 0 {
            assert(s.drop_last()[last_index_of(s.drop_last(), b)] == s[last_index_of(s, b)]);
        }
    }
}

pub proof fn lemma_last_index_of_at(s: Seq<u8>, b: u8, i: int)
    requires
        -1 <= i < s.len(),
        forall|k: int| i < k < s.len() ==> s[k] != b,
        i >= 0 ==> s[i] == b,
    ensures
        last_index_of(s, b) == i,
    decreases s.len(),
{
    if s.len() == 0 {
    } else if i == s.len() - 1 {
    } else {
        assert(s.last() != b);
        lemma_last_index_of_at(s.drop_last(), b, i);
    }
}

/// Find the last occurrence of `b` in `s`.
#[verifier::loop_isolation(false)]
pub fn rfind_byte(s: &[u8], b: u8) -> (r: Option<usize>)
    ensures
        match r {
            Some(i) => last_index_of(s@, b) == i,
            None => last_index_of(s@, b) == -1,
        },
{
    let mut k: usize = s.len();
    while k > 0 && s[k - 1] != b
        invariant
            0 <= k <= s@.len(),
            forall|j: int| k <= j < s@.len() ==> s@[j] != b,
        decreases k,
    {
        k -= 1;
    }
    proof {
        lemma_last_index_of_at(s@, b, k as int - 1);
    }
    if k == 0 {
        None
    } else {
        Some(k - 1)
    }
}

/// An upper-case ASCII letter mapped to lower case; any other byte kept.
pub open spec fn lower_byte(b: u8) -> u8 {
    if 65 <= b <= 90 {
        (b + 32) as u8
    } else {
        b
    }
}

/// `s` with its ASCII letters lowered.
pub open spec fn lower_bytes(s: Seq<u8>) -> Seq<u8> {
    Seq::new(s.len(), |i: int| lower_byte(s[i]))
}

/// Lower the ASCII letters of `s`.
#[verifier::loop_isolation(false)]
pub fn lower_ascii(s: &[u8]) -> (r: Vec<u8>)
    ensures
        r@ == lower_bytes(s@),
{
    let mut out: Vec<u8> = Vec::new();
    let mut i: usize = 0;
    while i < s.len()
        invariant
            0 <= i <= s@.len(),
            out@ =~= lower_bytes(s@).take(i as int),
        decreases s@.len() - i,
    {
        let c = s[i];
        if 65 <= c && c <= 90 {
            out.push(c + 32);
        } else {
            out.push(c);
        }
        i += 1;
        proof {
            assert(out@ =~= lower_bytes(s@).take(i as int));
        }
    }
    proof {
        assert(lower_bytes(s@).take(s@.len() as int) =~= lower_bytes(s@));
    }
    out
}

/// Compare two credential byte strings in time that depends only on the
/// length of `b` (the stored credential), not on where they first differ.
#[verifier::loop_isolation(false)]
pub fn constant_time_eq(a: &[u8], b: &[u8]) -> (r: bool)
    ensures
        r == (a@ == b@),
{
    let len_ok: bool = a.len() == b.len();
    let mut acc: u8 = 0;
    let mut i: usize = 0;
    while i < b.len()
        invariant
            i <= b@.len(),
            acc == 0 <==> forall|k: int| 0 <= k < i ==> k < a@.len() && a@[k] == b@[k],
        decreases b@.len() - i,
    {
        let av: u8 = if i < a.len() {
            a[i]
        } else {
            !b[i]
        };
        let bv = b[i];
        let diff: u8 = av ^ bv;
        proof {
            assert((av ^ bv) == 0 <==> av == bv) by (bit_vector);
            assert((acc | diff) == 0 <==> acc == 0 && diff == 0) by (bit_vector);
            assert(!bv != bv) by (bit_vector);
        }
        acc = acc | diff;
        i += 1;
    }
    let r = len_ok && acc == 0;
    proof {
        if r {
            assert(a@ =~= b@);
        } else if a@ == b@ {
            assert(a@.len() == b@.len());
            assert(forall|k: int| 0 <= k < b@.len() ==> a@[k] == b@[k]);
        }
    }
    r
}

} // verus!
