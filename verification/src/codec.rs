//! The persisted byte layout of a record, with an exact round-trip contract:
//! the three numeric fields as little-endian 64-bit values, then each text
//! field as a length-prefixed UTF-8 chunk.

use crate::record::{AdventureView, CulinaryAdventure};
use vstd::bytes::{
    lemma_auto_spec_u64_to_from_le_bytes, spec_u64_to_le_bytes, u64_from_le_bytes, u64_to_le_bytes,
};
use vstd::prelude::*;
use vstd::slice::slice_subrange;
use vstd::string::{StrSliceExecFns, StringSliceAdditionalSpecFns};
use vstd::utf8::{encode_utf8, encode_utf8_decode_utf8, encode_utf8_valid_utf8, valid_utf8};

verus! {

/// A text chunk: eight length bytes, then that many bytes of UTF-8.
pub open spec fn len_prefixed(bytes: Seq<u8>) -> Seq<u8> {
    spec_u64_to_le_bytes(bytes.len() as u64) + bytes
}

/// The persisted bytes of one record.
pub open spec fn encoded(w: AdventureView) -> Seq<u8> {
    spec_u64_to_le_bytes(w.id) + spec_u64_to_le_bytes(w.rating) + spec_u64_to_le_bytes(
        w.visit_date,
    ) + len_prefixed(encode_utf8(w.restaurant_name)) + len_prefixed(encode_utf8(w.dish_name))
        + len_prefixed(encode_utf8(w.notes))
}

/// Splits a known concatenation inside `s` into its two parts.
proof fn lemma_split_concat(s: Seq<u8>, pos: int, end: int, a: Seq<u8>, b: Seq<u8>)
    requires
        0 <= pos <= end <= s.len(),
        s.subrange(pos, end) == a + b,
    ensures
        pos + a.len() + b.len() == end,
        s.subrange(pos, pos + a.len() as int) == a,
        s.subrange(pos + a.len() as int, end) == b,
{
    let t = s.subrange(pos, end);
    assert(t.len() == a.len() + b.len());
    assert(s.subrange(pos, pos + a.len() as int) =~= a) by {
        assert forall|k: int| 0 <= k < a.len() implies s.subrange(pos, pos + a.len() as int)[k]
            == a[k] by {
            assert(t[k] == a[k]);
            assert(t[k] == s[pos + k]);
        }
    }
    assert(s.subrange(pos + a.len() as int, end) =~= b) by {
        assert forall|k: int| 0 <= k < b.len() implies s.subrange(pos + a.len() as int, end)[k]
            == b[k] by {
            assert(t[a.len() + k] == b[k]);
            assert(t[a.len() + k] == s[pos + a.len() + k]);
        }
    }
}

/// Two equal little-endian byte runs come from the same value.
proof fn lemma_le_bytes_injective(x: u64, y: u64)
    requires
        spec_u64_to_le_bytes(x) == spec_u64_to_le_bytes(y),
    ensures
        x == y,
{
    lemma_auto_spec_u64_to_from_le_bytes();
}

/// Two equal UTF-8 encodings come from the same characters.
proof fn lemma_encode_utf8_injective(a: Seq<char>, b: Seq<char>)
    requires
        encode_utf8(a) == encode_utf8(b),
    ensures
        a == b,
{
    encode_utf8_decode_utf8(a);
    encode_utf8_decode_utf8(b);
}

/// A suffix of `s` decomposes into a text chunk and a remainder in one way
/// only: two such decompositions agree on the text and the remainder.
proof fn lemma_chunk_unique(s: Seq<u8>, pos: int, t1: Seq<char>, r1: Seq<u8>, t2: Seq<char>, r2: Seq<u8>)
    requires
        s.len() <= u64::MAX,
        0 <= pos <= s.len(),
        s.subrange(pos, s.len() as int) == len_prefixed(encode_utf8(t1)) + r1,
        s.subrange(pos, s.len() as int) == len_prefixed(encode_utf8(t2)) + r2,
    ensures
        t1 == t2,
        r1 == r2,
{
    let e1 = encode_utf8(t1);
    let e2 = encode_utf8(t2);
    let n = s.len() as int;
    assert(len_prefixed(e1) + r1 =~= spec_u64_to_le_bytes(e1.len() as u64) + (e1 + r1));
    assert(len_prefixed(e2) + r2 =~= spec_u64_to_le_bytes(e2.len() as u64) + (e2 + r2));
    lemma_auto_spec_u64_to_from_le_bytes();
    lemma_split_concat(s, pos, n, spec_u64_to_le_bytes(e1.len() as u64), e1 + r1);
    lemma_split_concat(s, pos, n, spec_u64_to_le_bytes(e2.len() as u64), e2 + r2);
    lemma_le_bytes_injective(e1.len() as u64, e2.len() as u64);
    assert(e1.len() <= n - pos - 8);
    assert(e2.len() <= n - pos - 8);
    assert(e1.len() == e2.len());
    lemma_split_concat(s, pos + 8, n, e1, r1);
    lemma_split_concat(s, pos + 8, n, e2, r2);
    assert(e1 == e2);
    lemma_encode_utf8_injective(t1, t2);
}

/// How the bytes of a record lay out: the numeric fields at fixed offsets,
/// the text chunks one after another from offset 24.
proof fn lemma_encoded_layout(s: Seq<u8>, w: AdventureView)
    requires
        s == encoded(w),
    ensures
        s.len() == 48 + encode_utf8(w.restaurant_name).len() + encode_utf8(w.dish_name).len()
            + encode_utf8(w.notes).len(),
        s.subrange(0, 8) == spec_u64_to_le_bytes(w.id),
        s.subrange(8, 16) == spec_u64_to_le_bytes(w.rating),
        s.subrange(16, 24) == spec_u64_to_le_bytes(w.visit_date),
        s.subrange(24, s.len() as int) == len_prefixed(encode_utf8(w.restaurant_name)) + (
        len_prefixed(encode_utf8(w.dish_name)) + len_prefixed(encode_utf8(w.notes))),
{
    lemma_auto_spec_u64_to_from_le_bytes();
    let le1 = spec_u64_to_le_bytes(w.id);
    let le2 = spec_u64_to_le_bytes(w.rating);
    let le3 = spec_u64_to_le_bytes(w.visit_date);
    let c1 = len_prefixed(encode_utf8(w.restaurant_name));
    let c2 = len_prefixed(encode_utf8(w.dish_name));
    let c3 = len_prefixed(encode_utf8(w.notes));
    let n = s.len() as int;
    assert(s.subrange(0, n) =~= le1 + (le2 + (le3 + (c1 + (c2 + c3)))));
    lemma_split_concat(s, 0, n, le1, le2 + (le3 + (c1 + (c2 + c3))));
    lemma_split_concat(s, 8, n, le2, le3 + (c1 + (c2 + c3)));
    lemma_split_concat(s, 16, n, le3, c1 + (c2 + c3));
}

/// Two records with the same persisted bytes are the same record.
pub proof fn lemma_encoded_injective(a: AdventureView, b: AdventureView)
    requires
        encoded(a) == encoded(b),
        encoded(a).len() <= u64::MAX,
    ensures
        a == b,
{
    let s = encoded(a);
    let n = s.len() as int;
    lemma_auto_spec_u64_to_from_le_bytes();
    lemma_encoded_layout(s, a);
    lemma_encoded_layout(s, b);
    lemma_le_bytes_injective(a.id, b.id);
    lemma_le_bytes_injective(a.rating, b.rating);
    lemma_le_bytes_injective(a.visit_date, b.visit_date);
    let c2a = len_prefixed(encode_utf8(a.dish_name));
    let c3a = len_prefixed(encode_utf8(a.notes));
    let c2b = len_prefixed(encode_utf8(b.dish_name));
    let c3b = len_prefixed(encode_utf8(b.notes));
    lemma_chunk_unique(
        s,
        24,
        a.restaurant_name,
        c2a + c3a,
        b.restaurant_name,
        c2b + c3b,
    );
    let m = 24 + 8 + encode_utf8(a.restaurant_name).len() as int;
    lemma_split_concat(s, 24, n, len_prefixed(encode_utf8(a.restaurant_name)), c2a + c3a);
    assert(s.subrange(m, n) == c2a + c3a);
    assert(s.subrange(m, n) =~= c2a + c3a);
    assert(c2a + c3a =~= len_prefixed(encode_utf8(a.dish_name)) + c3a);
    assert(c2b + c3b =~= len_prefixed(encode_utf8(b.dish_name)) + c3b);
    lemma_chunk_unique(s, m, a.dish_name, c3a, b.dish_name, c3b);
    let m2 = m + 8 + encode_utf8(a.dish_name).len() as int;
    lemma_split_concat(s, m, n, len_prefixed(encode_utf8(a.dish_name)), c3a);
    assert(c3a =~= len_prefixed(encode_utf8(a.notes)) + Seq::<u8>::empty());
    assert(c3b =~= len_prefixed(encode_utf8(b.notes)) + Seq::<u8>::empty());
    lemma_chunk_unique(s, m2, a.notes, Seq::<u8>::empty(), b.notes, Seq::<u8>::empty());
}

/// Relies on core::str::from_utf8: it succeeds exactly on valid UTF-8 and
/// returns the text those bytes spell.
#[verifier::external_body]
fn utf8_to_str(bytes: &[u8]) -> (r: Option<&str>)
    ensures
        r is Some <==> valid_utf8(bytes@),
        r matches Some(s) ==> s.spec_bytes() == bytes@,
{
    core::str::from_utf8(bytes).ok()
}

/// Appends one length-prefixed text chunk.
fn append_text(out: &mut Vec<u8>, s: &str)
    ensures
        final(out)@ == old(out)@ + len_prefixed(encode_utf8(s@)),
{
    let mut bytes = s.as_bytes_vec();
    let mut lp = u64_to_le_bytes(bytes.len() as u64);
    out.append(&mut lp);
    out.append(&mut bytes);
    proof {
        assert(out@ =~= old(out)@ + len_prefixed(encode_utf8(s@)));
    }
}

/// Serializes a record into its persisted bytes.
pub fn encode_adventure(a: &CulinaryAdventure) -> (r: Vec<u8>)
    ensures
        r@ == encoded(a@),
{
    let mut out = u64_to_le_bytes(a.id);
    let mut t1 = u64_to_le_bytes(a.rating);
    out.append(&mut t1);
    let mut t2 = u64_to_le_bytes(a.visit_date);
    out.append(&mut t2);
    append_text(&mut out, a.restaurant_name.as_str());
    append_text(&mut out, a.dish_name.as_str());
    append_text(&mut out, a.notes.as_str());
    proof {
        assert(out@ =~= encoded(a@));
    }
    out
}

/// Reads the eight bytes at `pos` as a little-endian 64-bit value.
fn read_u64(bytes: &[u8], pos: usize) -> (r: Option<u64>)
    requires
        pos <= bytes@.len(),
    ensures
        r is Some <==> pos + 8 <= bytes@.len(),
        r matches Some(x) ==> bytes@.subrange(pos as int, pos as int + 8) == spec_u64_to_le_bytes(
            x,
        ),
{
    proof {
        lemma_auto_spec_u64_to_from_le_bytes();
    }
    if bytes.len() - pos >= 8 {
        let s = slice_subrange(bytes, pos, pos + 8);
        Some(u64_from_le_bytes(s))
    } else {
        None
    }
}

/// Reads one length-prefixed text chunk starting at `pos`; returns the text
/// and the position just past the chunk.
fn read_text(bytes: &[u8], pos: usize) -> (r: Option<(String, usize)>)
    requires
        pos <= bytes@.len(),
    ensures
        r matches Some(p) ==> pos + 8 <= p.1 <= bytes@.len() && bytes@.subrange(
            pos as int,
            p.1 as int,
        ) == len_prefixed(encode_utf8(p.0@)),
        (exists|t: Seq<char>, rest: Seq<u8>|
            bytes@.subrange(pos as int, bytes@.len() as int) == #[trigger] (len_prefixed(
                encode_utf8(t),
            ) + rest)) ==> r is Some,
{
    let ghost has = exists|t: Seq<char>, rest: Seq<u8>|
        bytes@.subrange(pos as int, bytes@.len() as int) == #[trigger] (len_prefixed(
            encode_utf8(t),
        ) + rest);
    let ghost (wt, wrest): (Seq<char>, Seq<u8>) = if has {
        choose|t: Seq<char>, rest: Seq<u8>|
            bytes@.subrange(pos as int, bytes@.len() as int) == #[trigger] (len_prefixed(
                encode_utf8(t),
            ) + rest)
    } else {
        (Seq::empty(), Seq::empty())
    };
    let ghost n = bytes@.len() as int;
    proof {
        if has {
            assert(bytes@.subrange(pos as int, n) =~= spec_u64_to_le_bytes(
                encode_utf8(wt).len() as u64,
            ) + (encode_utf8(wt) + wrest));
            lemma_split_concat(
                bytes@,
                pos as int,
                n,
                spec_u64_to_le_bytes(encode_utf8(wt).len() as u64),
                encode_utf8(wt) + wrest,
            );
            lemma_auto_spec_u64_to_from_le_bytes();
            lemma_split_concat(bytes@, pos as int + 8, n, encode_utf8(wt), wrest);
        }
    }
    let total = bytes.len();
    let len64 = match read_u64(bytes, pos) {
        Some(x) => x,
        None => {
            return None;
        },
    };
    proof {
        if has {
            lemma_le_bytes_injective(len64, encode_utf8(wt).len() as u64);
        }
    }
    let body_start = pos + 8;
    let avail = total - body_start;
    if len64 > avail as u64 {
        proof {
            if has {
                assert(encode_utf8(wt).len() <= n - body_start);
                assert(false);
            }
        }
        return None;
    }
    let len = len64 as usize;
    let body = slice_subrange(bytes, body_start, body_start + len);
    proof {
        if has {
            assert(body@ == encode_utf8(wt));
            encode_utf8_valid_utf8(wt);
        }
    }
    match utf8_to_str(body) {
        Some(s) => {
            let end = body_start + len;
            let owned = s.to_owned();
            proof {
                assert(bytes@.subrange(pos as int, end as int) =~= len_prefixed(
                    encode_utf8(owned@),
                ));
            }
            Some((owned, end))
        },
        None => {
            proof {
                if has {
                    assert(false);
                }
            }
            None
        },
    }
}

/// Parses persisted bytes back into a record. Succeeds on exactly the byte
/// runs that `encoded` produces, and returns the record they encode.
pub fn decode_adventure(bytes: &[u8]) -> (r: Option<CulinaryAdventure>)
    ensures
        r matches Some(a) ==> bytes@ == encoded(a@),
        (exists|w: AdventureView| bytes@ == encoded(w)) ==> r is Some,
{
    let ghost has = exists|w: AdventureView| bytes@ == encoded(w);
    let ghost w: AdventureView = if has {
        choose|w: AdventureView| bytes@ == encoded(w)
    } else {
        arbitrary()
    };
    let ghost n = bytes@.len() as int;
    proof {
        if has {
            lemma_encoded_layout(bytes@, w);
        }
    }
    let total = bytes.len();
    if total < 24 {
        proof {
            if has {
                assert(false);
            }
        }
        return None;
    }
    let id = match read_u64(bytes, 0) {
        Some(x) => x,
        None => {
            return None;
        },
    };
    let rating = match read_u64(bytes, 8) {
        Some(x) => x,
        None => {
            return None;
        },
    };
    let visit_date = match read_u64(bytes, 16) {
        Some(x) => x,
        None => {
            return None;
        },
    };
    proof {
        if has {
            lemma_le_bytes_injective(id, w.id);
            lemma_le_bytes_injective(rating, w.rating);
            lemma_le_bytes_injective(visit_date, w.visit_date);
        }
    }
    let ghost c1 = len_prefixed(encode_utf8(w.restaurant_name));
    let ghost c2 = len_prefixed(encode_utf8(w.dish_name));
    let ghost c3 = len_prefixed(encode_utf8(w.notes));
    let (restaurant_name, e1) = match read_text(bytes, 24) {
        Some(p) => p,
        None => {
            return None;
        },
    };
    proof {
        if has {
            assert(bytes@.subrange(24, n) =~= bytes@.subrange(24, e1 as int) + bytes@.subrange(
                e1 as int,
                n,
            ));
            lemma_chunk_unique(
                bytes@,
                24,
                restaurant_name@,
                bytes@.subrange(e1 as int, n),
                w.restaurant_name,
                c2 + c3,
            );
        }
    }
    let (dish_name, e2) = match read_text(bytes, e1) {
        Some(p) => p,
        None => {
            return None;
        },
    };
    proof {
        if has {
            assert(bytes@.subrange(e1 as int, n) =~= bytes@.subrange(e1 as int, e2 as int)
                + bytes@.subrange(e2 as int, n));
            assert(c2 + c3 =~= len_prefixed(encode_utf8(w.dish_name)) + c3);
            lemma_chunk_unique(
                bytes@,
                e1 as int,
                dish_name@,
                bytes@.subrange(e2 as int, n),
                w.dish_name,
                c3,
            );
        }
    }
    proof {
        if has {
            assert(bytes@.subrange(e2 as int, n) =~= len_prefixed(encode_utf8(w.notes))
                + Seq::<u8>::empty());
        }
    }
    let (notes, e3) = match read_text(bytes, e2) {
        Some(p) => p,
        None => {
            return None;
        },
    };
    proof {
        if has {
            assert(bytes@.subrange(e2 as int, n) =~= bytes@.subrange(e2 as int, e3 as int)
                + bytes@.subrange(e3 as int, n));
            assert(c3 =~= len_prefixed(encode_utf8(w.notes)) + Seq::<u8>::empty());
            lemma_chunk_unique(
                bytes@,
                e2 as int,
                notes@,
                bytes@.subrange(e3 as int, n),
                w.notes,
                Seq::<u8>::empty(),
            );
            assert(bytes@.subrange(e3 as int, n).len() == 0);
        }
    }
    if e3 != total {
        proof {
            if has {
                assert(false);
            }
        }
        return None;
    }
    let a = CulinaryAdventure { id, restaurant_name, dish_name, rating, notes, visit_date };
    proof {
        assert(bytes@ =~= bytes@.subrange(0, 8) + bytes@.subrange(8, 16) + bytes@.subrange(16, 24)
            + bytes@.subrange(24, e1 as int) + bytes@.subrange(e1 as int, e2 as int)
            + bytes@.subrange(e2 as int, e3 as int));
        assert(bytes@ =~= encoded(a@));
    }
    Some(a)
}

} // verus!
