//! The persisted record encoding: a stable, self-describing binary layout
//! with a fixed field order. A record is written as the two 64-bit halves of
//! its identifier (little-endian, low half first), the UTF-8 bytes of the
//! original URL and of the short code (each prefixed by a 64-bit
//! little-endian byte length), and the alias section: one presence byte,
//! then, when present, a 64-bit count followed by each alias length-prefixed
//! the same way. Decoding consumes the whole input or fails.

use crate::link::{Link, LinkView};
use vstd::bytes::{
    lemma_auto_spec_u64_to_from_le_bytes, spec_u64_from_le_bytes, spec_u64_to_le_bytes,
    u64_from_le_bytes, u64_to_le_bytes,
};
use vstd::prelude::*;
use vstd::slice::{slice_subrange, slice_to_vec};
use vstd::utf8::{
    decode_utf8, decode_utf8_encode_utf8, encode_utf8, encode_utf8_decode_utf8,
    encode_utf8_valid_utf8, valid_utf8,
};

verus! {

/// A byte string prefixed by its 64-bit little-endian length.
pub open spec fn enc_chunk(b: Seq<u8>) -> Seq<u8>
    recommends
        b.len() < 0x1_0000_0000_0000_0000,
{
    spec_u64_to_le_bytes(b.len() as u64) + b
}

/// A character string as its length-prefixed UTF-8 bytes.
pub open spec fn enc_str(s: Seq<char>) -> Seq<u8> {
    enc_chunk(encode_utf8(s))
}

/// The aliases of a record, one after the other.
pub open spec fn enc_alias_list(list: Seq<Seq<char>>) -> Seq<u8>
    decreases list.len(),
{
    if list.len() == 0 {
        Seq::empty()
    } else {
        enc_str(list[0]) + enc_alias_list(list.drop_first())
    }
}

/// The alias section: a presence byte, then the count and the aliases.
pub open spec fn enc_aliases(a: Option<Seq<Seq<char>>>) -> Seq<u8> {
    match a {
        Option::None => seq![0u8],
        Option::Some(list) => seq![1u8] + spec_u64_to_le_bytes(list.len() as u64)
            + enc_alias_list(list),
    }
}

/// The full persisted encoding of a record.
pub open spec fn enc_record(v: LinkView) -> Seq<u8> {
    spec_u64_to_le_bytes(v.id_lo) + spec_u64_to_le_bytes(v.id_hi) + enc_str(v.original_link)
        + enc_str(v.shortened_link) + enc_aliases(v.aliases)
}

/// Reads the 64-bit little-endian word at `pos`, returning it with the
/// position just past it.
pub open spec fn dec_u64(b: Seq<u8>, pos: int) -> Option<(u64, int)> {
    if 0 <= pos && pos + 8 <= b.len() {
        Option::Some((spec_u64_from_le_bytes(b.subrange(pos, pos + 8)), pos + 8))
    } else {
        Option::None
    }
}

/// Reads a length-prefixed UTF-8 string at `pos`.
pub open spec fn dec_str(b: Seq<u8>, pos: int) -> Option<(Seq<char>, int)> {
    match dec_u64(b, pos) {
        Option::None => Option::None,
        Option::Some((n, p)) => {
            if p + n <= b.len() && valid_utf8(b.subrange(p, p + n)) {
                Option::Some((decode_utf8(b.subrange(p, p + n)), p + n))
            } else {
                Option::None
            }
        },
    }
}

/// Reads `n` length-prefixed strings starting at `pos`.
pub open spec fn dec_alias_list(b: Seq<u8>, pos: int, n: nat) -> Option<(Seq<Seq<char>>, int)>
    decreases n,
{
    if n == 0 {
        Option::Some((Seq::empty(), pos))
    } else {
        match dec_str(b, pos) {
            Option::None => Option::None,
            Option::Some((s, p)) => match dec_alias_list(b, p, (n - 1) as nat) {
                Option::None => Option::None,
                Option::Some((rest, p2)) => Option::Some((seq![s] + rest, p2)),
            },
        }
    }
}

/// Reads the alias section at `pos`: a presence byte, then, when present,
/// the count and that many strings.
pub open spec fn dec_aliases(b: Seq<u8>, pos: int) -> Option<(Option<Seq<Seq<char>>>, int)> {
    if 0 <= pos && pos < b.len() {
        if b[pos] == 0u8 {
            Option::Some((Option::None, pos + 1))
        } else if b[pos] == 1u8 {
            match dec_u64(b, pos + 1) {
                Option::None => Option::None,
                Option::Some((n, p)) => match dec_alias_list(b, p, n as nat) {
                    Option::None => Option::None,
                    Option::Some((list, p2)) => Option::Some((Option::Some(list), p2)),
                },
            }
        } else {
            Option::None
        }
    } else {
        Option::None
    }
}

/// The record encoded in `b`, when `b` is exactly one valid encoding.
pub open spec fn dec_record(b: Seq<u8>) -> Option<LinkView> {
    match dec_u64(b, 0) {
        Option::None => Option::None,
        Option::Some((lo, p1)) => match dec_u64(b, p1) {
            Option::None => Option::None,
            Option::Some((hi, p2)) => match dec_str(b, p2) {
                Option::None => Option::None,
                Option::Some((url, p3)) => match dec_str(b, p3) {
                    Option::None => Option::None,
                    Option::Some((code, p4)) => match dec_aliases(b, p4) {
                        Option::None => Option::None,
                        Option::Some((al, p5)) => {
                            if p5 == b.len() {
                                Option::Some(
                                    LinkView {
                                        id_hi: hi,
                                        id_lo: lo,
                                        original_link: url,
                                        shortened_link: code,
                                        aliases: al,
                                    },
                                )
                            } else {
                                Option::None
                            }
                        },
                    },
                },
            },
        },
    }
}

/// Relies on String::from_utf8: it succeeds exactly on the byte sequences
/// that are valid UTF-8, and returns the character sequence those bytes
/// encode.
#[verifier::external_body]
pub(crate) fn bytes_to_string(v: Vec<u8>) -> (r: Option<String>)
    ensures
        r is Some <==> valid_utf8(v@),
        r is Some ==> r.unwrap()@ == decode_utf8(v@),
{
    match String::from_utf8(v) {
        Ok(s) => Some(s),
        Err(_) => None,
    }
}

/// Appending one more alias extends the encoded list at its end.
pub proof fn lemma_enc_alias_list_push(list: Seq<Seq<char>>, s: Seq<char>)
    ensures
        enc_alias_list(list.push(s)) == enc_alias_list(list) + enc_str(s),
    decreases list.len(),
{
    if list.len() == 0 {
        assert(list.push(s)[0] == s);
        assert(list.push(s).drop_first() =~= Seq::<Seq<char>>::empty());
        assert(enc_alias_list(list.push(s)) == enc_str(s) + enc_alias_list(
            Seq::<Seq<char>>::empty(),
        ));
        assert(enc_str(s) + Seq::<u8>::empty() =~= enc_str(s));
        assert(enc_alias_list(list) + enc_str(s) =~= enc_str(s));
    } else {
        assert(list.push(s).drop_first() =~= list.drop_first().push(s));
        lemma_enc_alias_list_push(list.drop_first(), s);
        assert(enc_alias_list(list.push(s)) == enc_str(list[0]) + (enc_alias_list(list.drop_first())
            + enc_str(s)));
        assert(enc_str(list[0]) + (enc_alias_list(list.drop_first()) + enc_str(s)) =~= (enc_str(
            list[0],
        ) + enc_alias_list(list.drop_first())) + enc_str(s));
    }
}

/// A length-prefixed string is read back from wherever it stands in a
/// larger byte sequence.
proof fn lemma_dec_str_enc(b: Seq<u8>, pos: int, s: Seq<char>)
    requires
        0 <= pos,
        pos + enc_str(s).len() <= b.len(),
        b.subrange(pos, pos + enc_str(s).len()) == enc_str(s),
        encode_utf8(s).len() < 0x1_0000_0000_0000_0000,
    ensures
        dec_str(b, pos) == Option::Some((s, pos + enc_str(s).len())),
{
    lemma_auto_spec_u64_to_from_le_bytes();
    let bytes = encode_utf8(s);
    let n = bytes.len() as u64;
    assert(enc_str(s).len() == 8 + bytes.len());
    assert(b.subrange(pos, pos + 8) =~= spec_u64_to_le_bytes(n));
    assert(dec_u64(b, pos) == Option::Some((n, pos + 8)));
    assert forall|i: int| 0 <= i < n as int implies b.subrange(pos + 8, pos + 8 + n as int)[i]
        == bytes[i] by {
        assert(b.subrange(pos, pos + enc_str(s).len())[8 + i] == enc_str(s)[8 + i]);
    }
    assert(b.subrange(pos + 8, pos + 8 + n as int) =~= bytes);
    encode_utf8_valid_utf8(s);
    encode_utf8_decode_utf8(s);
}

/// A sequence of length-prefixed strings is read back from wherever it
/// stands in a larger byte sequence.
proof fn lemma_dec_alias_list_enc(b: Seq<u8>, pos: int, list: Seq<Seq<char>>)
    requires
        0 <= pos,
        pos + enc_alias_list(list).len() <= b.len(),
        b.subrange(pos, pos + enc_alias_list(list).len()) == enc_alias_list(list),
        forall|i: int|
            0 <= i < list.len() ==> encode_utf8(#[trigger] list[i]).len()
                < 0x1_0000_0000_0000_0000,
    ensures
        dec_alias_list(b, pos, list.len()) == Option::Some(
            (list, pos + enc_alias_list(list).len()),
        ),
    decreases list.len(),
{
    if list.len() == 0 {
        assert(list =~= Seq::<Seq<char>>::empty());
    } else {
        let s0 = list[0];
        let l0 = enc_str(s0).len() as int;
        let rest = list.drop_first();
        assert(enc_alias_list(list) == enc_str(s0) + enc_alias_list(rest));
        assert forall|i: int| 0 <= i < l0 implies b.subrange(pos, pos + l0)[i] == enc_str(s0)[i] by {
            assert(b.subrange(pos, pos + enc_alias_list(list).len())[i] == enc_alias_list(
                list,
            )[i]);
        }
        assert(b.subrange(pos, pos + l0) =~= enc_str(s0));
        lemma_dec_str_enc(b, pos, s0);
        assert forall|i: int| 0 <= i < enc_alias_list(rest).len() implies b.subrange(
            pos + l0,
            pos + l0 + enc_alias_list(rest).len(),
        )[i] == enc_alias_list(rest)[i] by {
            assert(b.subrange(pos, pos + enc_alias_list(list).len())[l0 + i] == enc_alias_list(
                list,
            )[l0 + i]);
        }
        assert(b.subrange(pos + l0, pos + l0 + enc_alias_list(rest).len()) =~= enc_alias_list(
            rest,
        ));
        assert forall|i: int| 0 <= i < rest.len() implies encode_utf8(#[trigger] rest[i]).len()
            < 0x1_0000_0000_0000_0000 by {
            assert(rest[i] == list[i + 1]);
        }
        lemma_dec_alias_list_enc(b, pos + l0, rest);
        assert(seq![s0] + rest =~= list);
    }
}

/// Round trip: decoding reads back exactly the record that was encoded.
pub proof fn lemma_dec_enc(v: LinkView)
    requires
        v.wf(),
    ensures
        dec_record(enc_record(v)) == Option::Some(v),
{
    lemma_auto_spec_u64_to_from_le_bytes();
    let b = enc_record(v);
    let p3 = 16 + enc_str(v.original_link).len() as int;
    let p4 = p3 + enc_str(v.shortened_link).len() as int;
    let p5 = p4 + enc_aliases(v.aliases).len() as int;
    assert(b.len() == p5);
    assert(b.subrange(0, 8) =~= spec_u64_to_le_bytes(v.id_lo));
    assert(b.subrange(8, 16) =~= spec_u64_to_le_bytes(v.id_hi));
    assert(dec_u64(b, 0) == Option::Some((v.id_lo, 8int)));
    assert(dec_u64(b, 8) == Option::Some((v.id_hi, 16int)));
    assert(b.subrange(16, p3) =~= enc_str(v.original_link));
    lemma_dec_str_enc(b, 16, v.original_link);
    assert(b.subrange(p3, p4) =~= enc_str(v.shortened_link));
    lemma_dec_str_enc(b, p3, v.shortened_link);
    match v.aliases {
        Option::None => {
            assert(b[p4] == 0u8);
            assert(p4 + 1 == b.len());
        },
        Option::Some(list) => {
            assert(b[p4] == 1u8);
            assert(b.subrange(p4 + 1, p4 + 9) =~= spec_u64_to_le_bytes(list.len() as u64));
            assert(dec_u64(b, p4 + 1) == Option::Some((list.len() as u64, p4 + 9)));
            assert((list.len() as u64) as nat == list.len());
            assert(b.subrange(p4 + 9, p4 + 9 + enc_alias_list(list).len()) =~= enc_alias_list(
                list,
            ));
            lemma_dec_alias_list_enc(b, p4 + 9, list);
            assert(p4 + 9 + enc_alias_list(list).len() == b.len());
        },
    }
}

/// Soundness of a decoded string: it re-encodes to exactly the bytes it was
/// read from.
proof fn lemma_enc_dec_str(b: Seq<u8>, pos: int)
    requires
        dec_str(b, pos) is Some,
    ensures
        ({
            let (s, p) = dec_str(b, pos).unwrap();
            &&& pos + 8 <= p <= b.len()
            &&& 0 <= pos
            &&& enc_str(s).len() == p - pos
            &&& enc_str(s) == b.subrange(pos, p)
            &&& encode_utf8(s).len() < 0x1_0000_0000_0000_0000
        }),
{
    lemma_auto_spec_u64_to_from_le_bytes();
    let (n, p8) = dec_u64(b, pos).unwrap();
    let chunk = b.subrange(pos + 8, pos + 8 + n as int);
    decode_utf8_encode_utf8(chunk);
    assert(spec_u64_to_le_bytes(n) == b.subrange(pos, pos + 8));
    let (s, p) = dec_str(b, pos).unwrap();
    assert(encode_utf8(s) == chunk);
    assert((chunk.len() as u64) == n);
    assert(enc_str(s) =~= b.subrange(pos, p));
}

/// Soundness of a decoded alias list: it re-encodes to exactly the bytes it
/// was read from.
proof fn lemma_enc_dec_alias_list(b: Seq<u8>, pos: int, n: nat)
    requires
        dec_alias_list(b, pos, n) is Some,
        0 <= pos <= b.len(),
    ensures
        ({
            let (list, p) = dec_alias_list(b, pos, n).unwrap();
            &&& list.len() == n
            &&& pos <= p <= b.len()
            &&& enc_alias_list(list) == b.subrange(pos, p)
            &&& forall|i: int|
                0 <= i < list.len() ==> encode_utf8(#[trigger] list[i]).len()
                    < 0x1_0000_0000_0000_0000
        }),
    decreases n,
{
    if n == 0 {
        assert(enc_alias_list(Seq::<Seq<char>>::empty()) =~= b.subrange(pos, pos));
    } else {
        lemma_enc_dec_str(b, pos);
        let (s, p1) = dec_str(b, pos).unwrap();
        lemma_enc_dec_alias_list(b, p1, (n - 1) as nat);
        let (rest, p2) = dec_alias_list(b, p1, (n - 1) as nat).unwrap();
        let list = seq![s] + rest;
        assert(list[0] == s);
        assert(list.drop_first() =~= rest);
        assert(enc_alias_list(list) == enc_str(s) + enc_alias_list(rest));
        assert(enc_str(s) + enc_alias_list(rest) =~= b.subrange(pos, p2));
        assert forall|i: int| 0 <= i < list.len() implies encode_utf8(#[trigger] list[i]).len()
            < 0x1_0000_0000_0000_0000 by {
            if i > 0 {
                assert(list[i] == rest[i - 1]);
            }
        }
    }
}

/// Soundness: a byte sequence that decodes at all is exactly the encoding of
/// the record it decodes to, and that record is well formed.
pub proof fn lemma_enc_dec(b: Seq<u8>)
    requires
        dec_record(b) is Some,
    ensures
        dec_record(b).unwrap().wf(),
        enc_record(dec_record(b).unwrap()) == b,
{
    lemma_auto_spec_u64_to_from_le_bytes();
    let v = dec_record(b).unwrap();
    let (lo, p1) = dec_u64(b, 0).unwrap();
    let (hi, p2) = dec_u64(b, p1).unwrap();
    assert(spec_u64_to_le_bytes(lo) == b.subrange(0, 8));
    assert(spec_u64_to_le_bytes(hi) == b.subrange(8, 16));
    lemma_enc_dec_str(b, 16);
    let (url, p3) = dec_str(b, 16).unwrap();
    lemma_enc_dec_str(b, p3);
    let (code, p4) = dec_str(b, p3).unwrap();
    let (al, p5) = dec_aliases(b, p4).unwrap();
    if b[p4] == 0u8 {
        assert(enc_aliases(al) =~= b.subrange(p4, p5));
    } else {
        let (cnt, pc) = dec_u64(b, p4 + 1).unwrap();
        assert(spec_u64_to_le_bytes(cnt) == b.subrange(p4 + 1, p4 + 9));
        lemma_enc_dec_alias_list(b, pc, cnt as nat);
        let (list, pl) = dec_alias_list(b, pc, cnt as nat).unwrap();
        assert((list.len() as u64) == cnt);
        assert(enc_aliases(al) =~= b.subrange(p4, p5));
    }
    assert(b =~= b.subrange(0, 8) + b.subrange(8, 16) + b.subrange(16, p3) + b.subrange(p3, p4)
        + b.subrange(p4, p5));
    assert(enc_record(v) =~= b);
}

/// Injectivity of the persisted encoding: two well-formed records with the
/// same encoding are the same record. This is what makes a stored record
/// resolve back to itself, field for field.
pub proof fn lemma_enc_record_injective(v1: LinkView, v2: LinkView)
    requires
        v1.wf(),
        v2.wf(),
        enc_record(v1) == enc_record(v2),
    ensures
        v1 == v2,
{
    lemma_dec_enc(v1);
    lemma_dec_enc(v2);
}

/// Appends the length-prefixed UTF-8 bytes of `s` to `out`.
fn push_chunk(out: &mut Vec<u8>, s: &String)
    ensures
        final(out)@ == old(out)@ + enc_str(s@),
        encode_utf8(s@).len() < 0x1_0000_0000_0000_0000,
{
    let mut bytes = s.as_str().as_bytes_vec();
    let mut len_bytes = u64_to_le_bytes(bytes.len() as u64);
    out.append(&mut len_bytes);
    out.append(&mut bytes);
    assert(final(out)@ =~= old(out)@ + enc_str(s@));
}

/// Serializes a record to the stable persisted byte layout.
pub fn encode_link(l: &Link) -> (out: Vec<u8>)
    ensures
        out@ == enc_record(l@),
        l@.wf(),
{
    let mut out: Vec<u8> = Vec::new();
    let mut lo_bytes = u64_to_le_bytes(l.id_lo);
    out.append(&mut lo_bytes);
    let mut hi_bytes = u64_to_le_bytes(l.id_hi);
    out.append(&mut hi_bytes);
    push_chunk(&mut out, &l.original_link);
    push_chunk(&mut out, &l.shortened_link);
    let ghost head = out@;
    match &l.aliases {
        None => {
            out.push(0u8);
            assert(out@ =~= head + enc_aliases(l@.aliases));
        },
        Some(list) => {
            out.push(1u8);
            let mut cnt_bytes = u64_to_le_bytes(list.len() as u64);
            out.append(&mut cnt_bytes);
            let ghost pre = out@;
            let mut i: usize = 0;
            while i < list.len()
                invariant
                    i <= list.len(),
                    out@ == pre + enc_alias_list(list.deep_view().take(i as int)),
                    forall|j: int|
                        0 <= j < i ==> encode_utf8(#[trigger] list.deep_view()[j]).len()
                            < 0x1_0000_0000_0000_0000,
                decreases list.len() - i,
            {
                push_chunk(&mut out, &list[i]);
                proof {
                    assert(list.deep_view().take(i + 1) =~= list.deep_view().take(i as int).push(
                        list.deep_view()[i as int],
                    ));
                    lemma_enc_alias_list_push(
                        list.deep_view().take(i as int),
                        list.deep_view()[i as int],
                    );
                    assert(out@ =~= pre + enc_alias_list(list.deep_view().take(i + 1)));
                }
                i = i + 1;
            }
            proof {
                assert(list.deep_view().take(list.len() as int) =~= list.deep_view());
                assert(out@ =~= head + enc_aliases(l@.aliases));
            }
        },
    }
    proof {
        assert(out@ =~= enc_record(l@));
    }
    out
}

/// Reads the 64-bit little-endian word at `pos`.
fn take_u64(b: &Vec<u8>, pos: usize) -> (r: Option<(u64, usize)>)
    requires
        pos <= b@.len(),
    ensures
        match r {
            Option::Some((n, p)) => dec_u64(b@, pos as int) == Option::Some((n, p as int)) && p
                == pos + 8,
            Option::None => dec_u64(b@, pos as int) is None,
        },
{
    if b.len() - pos >= 8 {
        let sl = slice_subrange(b.as_slice(), pos, pos + 8);
        let n = u64_from_le_bytes(sl);
        Some((n, pos + 8))
    } else {
        None
    }
}

/// Reads the length-prefixed UTF-8 string at `pos`.
fn take_chunk(b: &Vec<u8>, pos: usize) -> (r: Option<(String, usize)>)
    requires
        pos <= b@.len(),
    ensures
        match r {
            Option::Some((s, p)) => dec_str(b@, pos as int) == Option::Some((s@, p as int)) && pos
                < p <= b@.len(),
            Option::None => dec_str(b@, pos as int) is None,
        },
{
    match take_u64(b, pos) {
        None => None,
        Some((n, p)) => {
            if n <= (b.len() - p) as u64 {
                let end = p + (n as usize);
                let chunk = slice_to_vec(slice_subrange(b.as_slice(), p, end));
                match bytes_to_string(chunk) {
                    None => None,
                    Some(s) => Some((s, end)),
                }
            } else {
                None
            }
        },
    }
}

/// Deserializes a record from the stable persisted byte layout: returns the
/// record exactly when the input is one whole valid encoding, and nothing
/// otherwise.
#[verifier::loop_isolation(false)]
pub fn decode_link(b: &Vec<u8>) -> (r: Option<Link>)
    ensures
        match r {
            Option::Some(l) => dec_record(b@) == Option::Some(l@) && l@.wf() && enc_record(l@)
                == b@,
            Option::None => dec_record(b@) is None,
        },
{
    let (lo, p1) = match take_u64(b, 0) {
        Option::None => { return Option::None },
        Option::Some(x) => x,
    };
    let (hi, p2) = match take_u64(b, p1) {
        Option::None => { return Option::None },
        Option::Some(x) => x,
    };
    let (url, p3) = match take_chunk(b, p2) {
        Option::None => { return Option::None },
        Option::Some(x) => x,
    };
    let (code, p4) = match take_chunk(b, p3) {
        Option::None => { return Option::None },
        Option::Some(x) => x,
    };
    if p4 >= b.len() {
        return Option::None;
    }
    let tag = b[p4];
    let (al, p5): (Option<Vec<String>>, usize) = if tag == 0 {
        (None, p4 + 1)
    } else if tag == 1 {
        let (cnt, pc) = match take_u64(b, p4 + 1) {
            Option::None => { return Option::None },
            Option::Some(x) => x,
        };
        let mut acc: Vec<String> = Vec::new();
        let mut i: u64 = 0;
        let mut pos = pc;
        while i < cnt
            invariant
                pc <= pos <= b@.len(),
                i <= cnt,
                dec_alias_list(b@, pc as int, cnt as nat) == (match dec_alias_list(
                    b@,
                    pos as int,
                    (cnt - i) as nat,
                ) {
                    Option::Some((rest, p)) => Option::Some((acc.deep_view() + rest, p)),
                    Option::None => Option::None,
                }),
            decreases cnt - i,
        {
            let ghost k = (cnt - i) as nat;
            match take_chunk(b, pos) {
                Option::None => {
                    proof {
                        assert(dec_alias_list(b@, pos as int, k) is None);
                        assert(dec_alias_list(b@, pc as int, cnt as nat) is None);
                        assert(dec_aliases(b@, p4 as int) is None);
                        assert(dec_record(b@) is None);
                    }
                    return Option::None;
                },
                Option::Some((s, pnext)) => {
                    let ghost prev_acc = acc.deep_view();
                    acc.push(s);
                    pos = pnext;
                    i = i + 1;
                    proof {
                        assert(acc.deep_view() =~= prev_acc.push(s@));
                        if dec_alias_list(b@, pos as int, (cnt - i) as nat) is Some {
                            let (rest, p) = dec_alias_list(
                                b@,
                                pos as int,
                                (cnt - i) as nat,
                            ).unwrap();
                            assert(prev_acc + (seq![s@] + rest) =~= prev_acc.push(s@) + rest);
                        }
                    }
                },
            }
        }
        proof {
            assert(acc.deep_view() + Seq::<Seq<char>>::empty() =~= acc.deep_view());
            assert(dec_alias_list(b@, pc as int, cnt as nat) == Option::Some(
                (acc.deep_view(), pos as int),
            ));
        }
        (Some(acc), pos)
    } else {
        return Option::None;
    };
    if p5 == b.len() {
        let l = Link { id_hi: hi, id_lo: lo, original_link: url, shortened_link: code, aliases: al };
        proof {
            assert(dec_record(b@) == Option::Some(l@));
            lemma_enc_dec(b@);
        }
        Option::Some(l)
    } else {
        Option::None
    }
}

} // verus!
