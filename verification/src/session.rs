//! Session-cookie extraction for the editor dashboard.
//!
//! The transport hands over the raw `Cookie` header; the first
//! `;`-separated part that, once trimmed, starts with the session cookie's
//! `name=` prefix yields the token. Creating, storing and expiring the
//! sessions themselves is the caller's business.

use vstd::prelude::*;
use crate::text::{
    ascii_bytes, find_byte, first_index_of, has_prefix, lemma_first_index_of_at, push_lit,
    starts_with, subvec, trim, trim_spec,
};

verus! {

/// `s` split at every occurrence of `b`; `n` separators give `n + 1`
/// parts, empty parts kept.
pub open spec fn split_all(s: Seq<u8>, b: u8) -> Seq<Seq<u8>>
    decreases s.len(),
{
    let i = first_index_of(s, b);
    if 0 <= i < s.len() {
        seq![s.subrange(0, i)] + split_all(s.subrange(i + 1, s.len() as int), b)
    } else {
        seq![s]
    }
}

/// The value of the first part that, trimmed, starts with `name_eq`.
pub open spec fn cookie_from_parts(parts: Seq<Seq<u8>>, name_eq: Seq<u8>) -> Option<Seq<u8>>
    decreases parts.len(),
{
    if parts.len() == 0 {
        None
    } else {
        let t = trim_spec(parts[0]);
        if has_prefix(t, name_eq) {
            Some(t.skip(name_eq.len() as int))
        } else {
            cookie_from_parts(parts.drop_first(), name_eq)
        }
    }
}

/// The editor's session token carried by a `Cookie` header, if any.
pub open spec fn session_cookie_spec(header: Seq<u8>) -> Option<Seq<u8>> {
    cookie_from_parts(split_all(header, 59), ascii_bytes("ed_session="@))
}

/// Extract the editor's session token from a raw `Cookie` header: the
/// first `;`-separated part that, trimmed, reads `ed_session=<token>`.
pub fn extract_session_cookie(header: &[u8]) -> (r: Option<Vec<u8>>)
    ensures
        match r {
            Some(v) => session_cookie_spec(header@) == Some(v@),
            None => session_cookie_spec(header@) is None,
        },
{
    proof {
        reveal_strlit("ed_session=");
    }
    let mut name_eq: Vec<u8> = Vec::new();
    push_lit(&mut name_eq, "ed_session=");
    proof {
        assert(name_eq@ =~= ascii_bytes("ed_session="@));
    }
    let mut pos: usize = 0;
    let ghost whole = session_cookie_spec(header@);
    proof {
        assert(header@.subrange(0, header@.len() as int) =~= header@);
    }
    loop
        invariant_except_break
            0 <= pos <= header@.len(),
            whole == session_cookie_spec(header@),
            name_eq@ == ascii_bytes("ed_session="@),
            cookie_from_parts(
                split_all(header@.subrange(pos as int, header@.len() as int), 59),
                name_eq@,
            ) == whole,
        ensures
            whole is None,
        decreases header@.len() + 1 - pos,
    {
        let ghost rest = header@.subrange(pos as int, header@.len() as int);
        let sep = match find_byte(header, 59, pos) {
            Some(i) => i,
            None => header.len(),
        };
        proof {
            if sep < header@.len() {
                assert(rest[sep - pos] == 59);
                assert forall|k: int| 0 <= k < sep - pos implies rest[k] != 59 by {
                    assert(rest[k] == header@[pos + k]);
                }
                lemma_first_index_of_at(rest, 59, sep - pos);
            } else {
                assert forall|k: int| 0 <= k < rest.len() implies rest[k] != 59 by {
                    assert(rest[k] == header@[pos + k]);
                }
                lemma_first_index_of_at(rest, 59, rest.len() as int);
            }
        }
        let part = subvec(header, pos, sep);
        let t = trim(part.as_slice());
        proof {
            if sep < header@.len() {
                assert(split_all(rest, 59) == seq![rest.subrange(0, sep - pos)] + split_all(
                    rest.subrange(sep + 1 - pos, rest.len() as int),
                    59,
                ));
                assert(split_all(rest, 59)[0] == rest.subrange(0, sep - pos));
                assert(split_all(rest, 59).drop_first() =~= split_all(
                    rest.subrange(sep + 1 - pos, rest.len() as int),
                    59,
                ));
            } else {
                assert(split_all(rest, 59) == seq![rest]);
                assert(rest.subrange(0, rest.len() as int) =~= rest);
            }
            assert(part@ =~= rest.subrange(0, sep - pos));
            assert(t@ == trim_spec(split_all(rest, 59)[0]));
        }
        if starts_with(t.as_slice(), name_eq.as_slice()) {
            let token = subvec(t.as_slice(), name_eq.len(), t.len());
            proof {
                assert(token@ =~= t@.skip(name_eq@.len() as int));
                assert(cookie_from_parts(split_all(rest, 59), name_eq@) == Some(
                    t@.skip(name_eq@.len() as int),
                ));
            }
            return Some(token);
        }
        if sep == header.len() {
            proof {
                assert(split_all(rest, 59).drop_first() =~= Seq::<Seq<u8>>::empty());
                assert(cookie_from_parts(Seq::<Seq<u8>>::empty(), name_eq@) is None);
                assert(cookie_from_parts(split_all(rest, 59), name_eq@) is None);
            }
            break ;
        }
        proof {
            assert(rest.subrange(sep + 1 - pos, rest.len() as int) =~= header@.subrange(
                sep + 1,
                header@.len() as int,
            ));
        }
        pos = sep + 1;
    }
    None
}

} // verus!
