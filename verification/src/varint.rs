//! Delta + variable-length-integer codec for postings lists.
//!
//! A value is stored little-endian in base 128: seven payload bits per byte,
//! the high bit of a byte set exactly when another byte follows. A sorted,
//! duplicate-free list of document ids is stored as the varint of each id's
//! gap from its predecessor, the first id's gap being taken from zero.
//!
//! A 32-bit value never needs more than five bytes, so a varint that is still
//! unterminated after five bytes is rejected as corrupt rather than read on;
//! the same holds for a buffer that ends in the middle of a varint, and for a
//! postings stream whose prefix sums leave the 32-bit id range. Decoding
//! reports such corruption to the caller instead of returning a silently
//! truncated list.

use vstd::prelude::*;

verus! {

/// Error reported by the codec: the byte stream does not hold a well-formed
/// varint sequence.
#[derive(Debug, Clone, Copy, PartialEq, Eq, Structural)]
pub enum CodecError {
    CorruptData,
}

/// 128 raised to the power `k`: the weight of the `k`-th byte of a varint.
pub open spec fn pow128(k: nat) -> nat
    decreases k,
{
    if k == 0 {
        1
    } else {
        0x80 * pow128((k - 1) as nat)
    }
}

/// The unique varint encoding of a value.
pub open spec fn varint_encoding(v: nat) -> Seq<u8>
    decreases v,
{
    if v < 0x80 {
        seq![v as u8]
    } else {
        seq![(v % 0x80 + 0x80) as u8] + varint_encoding(v / 0x80)
    }
}

/// The value held by a (possibly partial) little-endian base-128 byte
/// sequence, continuation bits ignored.
pub open spec fn varint_value(s: Seq<u8>) -> nat
    decreases s.len(),
{
    if s.len() == 0 {
        0
    } else {
        (s[0] % 0x80) as nat + 0x80 * varint_value(s.drop_first())
    }
}

/// Parses the varint at the front of `s`: the raw value and the number of
/// bytes consumed, or `None` when `s` ends inside the varint or the varint
/// does not terminate within five bytes.
pub open spec fn parse_varint(s: Seq<u8>) -> Option<(nat, int)>
    decreases s.len(),
{
    if s.len() == 0 {
        None
    } else if s[0] < 0x80 {
        Some((s[0] as nat, 1))
    } else {
        match parse_varint(s.drop_first()) {
            None => None,
            Some((v, l)) => {
                if l + 1 > 5 {
                    None
                } else {
                    Some(((s[0] % 0x80) as nat + 0x80 * v, l + 1))
                }
            },
        }
    }
}

/// A strictly ascending (hence duplicate-free) sequence of document ids.
pub open spec fn sorted_strict(s: Seq<u32>) -> bool {
    forall|i: int, j: int| 0 <= i < j < s.len() ==> s[i] < s[j]
}

/// The delta-varint encoding of the ids in `ids`, each as its gap from its
/// predecessor, the predecessor of the first being `prev`.
pub open spec fn postings_encoding_from(ids: Seq<u32>, prev: u32) -> Seq<u8>
    decreases ids.len(),
{
    if ids.len() == 0 {
        Seq::empty()
    } else {
        varint_encoding((ids[0] - prev) as nat) + postings_encoding_from(ids.drop_first(), ids[0])
    }
}

/// The delta-varint encoding of a sorted, duplicate-free id list.
pub open spec fn postings_encoding(ids: Seq<u32>) -> Seq<u8> {
    postings_encoding_from(ids, 0)
}

/// Decodes a postings buffer: repeatedly parses a varint delta and
/// prefix-sums it into an absolute id, `None` on any corruption (an
/// unterminated or over-long varint, or a sum outside the 32-bit range).
/// Deltas wider than 32 bits are truncated to their low 32 bits, as the
/// byte-at-a-time accumulation of the decoder makes them.
pub open spec fn spec_decode_postings(s: Seq<u8>, prev: u32) -> Option<Seq<u32>>
    decreases s.len(),
    via spec_decode_postings_decreases
{
    if s.len() == 0 {
        Some(Seq::empty())
    } else {
        match parse_varint(s) {
            None => None,
            Some((raw, len)) => {
                let delta = raw % 0x100000000;
                if prev as nat + delta > u32::MAX as nat {
                    None
                } else {
                    match spec_decode_postings(s.skip(len), ((prev as nat + delta) as u32)) {
                        None => None,
                        Some(rest) => Some(seq![(prev as nat + delta) as u32] + rest),
                    }
                }
            },
        }
    }
}

#[via_fn]
proof fn spec_decode_postings_decreases(s: Seq<u8>, prev: u32) {
    lemma_parse_varint_props(s);
}

/// Every successful parse consumes one to five bytes, ends on the first byte
/// without a continuation bit, and yields the base-128 value of the bytes
/// consumed.
pub proof fn lemma_parse_varint_props(s: Seq<u8>)
    ensures
        match parse_varint(s) {
            Some((raw, len)) => {
                &&& 1 <= len <= 5
                &&& len <= s.len()
                &&& s[len - 1] < 0x80
                &&& forall|i: int| 0 <= i < len - 1 ==> s[i] >= 0x80
                &&& raw == varint_value(s.subrange(0, len))
            },
            None => true,
        },
    decreases s.len(),
{
    if s.len() == 0 {
    } else if s[0] < 0x80 {
        assert(s.subrange(0, 1).drop_first() =~= Seq::<u8>::empty());
        assert(varint_value(Seq::<u8>::empty()) == 0);
        assert(varint_value(s.subrange(0, 1)) == s[0] as nat);
    } else {
        lemma_parse_varint_props(s.drop_first());
        match parse_varint(s.drop_first()) {
            None => {},
            Some((v, l)) => {
                if l + 1 <= 5 {
                    assert(forall|i: int| 1 <= i < l ==> s[i] == s.drop_first()[i - 1]);
                    assert(s.subrange(0, l + 1).drop_first() =~= s.drop_first().subrange(0, l));
                    assert(varint_value(s.subrange(0, l + 1)) == (s[0] % 0x80) as nat + 0x80 * v);
                }
            },
        }
    }
}

/// When the first terminating byte within the five-byte window sits at
/// offset `j`, the parse succeeds and consumes exactly `j + 1` bytes.
proof fn lemma_parse_varint_terminated(s: Seq<u8>, j: int)
    requires
        0 <= j < 5,
        j < s.len(),
        forall|i: int| 0 <= i < j ==> s[i] >= 0x80,
        s[j] < 0x80,
    ensures
        parse_varint(s) == Some((varint_value(s.subrange(0, j + 1)), j + 1)),
    decreases j,
{
    if j == 0 {
        assert(s.subrange(0, 1).drop_first() =~= Seq::<u8>::empty());
        assert(varint_value(Seq::<u8>::empty()) == 0);
        assert(varint_value(s.subrange(0, 1)) == s[0] as nat);
    } else {
        lemma_parse_varint_terminated(s.drop_first(), j - 1);
        assert(s.subrange(0, j + 1).drop_first() =~= s.drop_first().subrange(0, j));
        assert(varint_value(s.subrange(0, j + 1)) == (s[0] % 0x80) as nat + 0x80 * varint_value(
            s.drop_first().subrange(0, j),
        ));
    }
}

/// When no byte of the five-byte window terminates (because the buffer ends
/// first, or all five carry the continuation bit), the parse fails.
proof fn lemma_parse_varint_none(s: Seq<u8>)
    requires
        forall|i: int| 0 <= i < 5 && i < s.len() ==> s[i] >= 0x80,
    ensures
        parse_varint(s) is None,
{
    lemma_parse_varint_props(s);
}

/// Appending a byte to a partial varint adds its payload at the next weight.
proof fn lemma_varint_value_push(s: Seq<u8>, b: u8)
    ensures
        varint_value(s.push(b)) == varint_value(s) + pow128(s.len()) * ((b % 0x80) as nat),
    decreases s.len(),
{
    if s.len() == 0 {
        assert(s.push(b).drop_first() =~= Seq::<u8>::empty());
        assert(varint_value(Seq::<u8>::empty()) == 0);
        assert(pow128(0) == 1);
        assert(s.push(b)[0] == b);
    } else {
        lemma_varint_value_push(s.drop_first(), b);
        assert(s.push(b).drop_first() =~= s.drop_first().push(b));
        assert(pow128(s.len()) == 0x80 * pow128((s.len() - 1) as nat));
        assert(varint_value(s.push(b)) == (s[0] % 0x80) as nat + 0x80 * varint_value(
            s.drop_first().push(b),
        ));
        assert(0x80 * (varint_value(s.drop_first()) + pow128((s.len() - 1) as nat) * ((b
            % 0x80) as nat)) == 0x80 * varint_value(s.drop_first()) + pow128(s.len()) * ((b
            % 0x80) as nat)) by (nonlinear_arith)
            requires
                pow128(s.len()) == 0x80 * pow128((s.len() - 1) as nat),
        ;
    }
}

/// The small powers of 128 that the codec's bounds use, written out.
proof fn lemma_pow128_values()
    ensures
        pow128(0) == 1,
        pow128(1) == 0x80,
        pow128(2) == 0x4000,
        pow128(3) == 0x200000,
        pow128(4) == 0x10000000,
        pow128(5) == 0x800000000,
{
    assert(pow128(0) == 1);
    assert(pow128(1) == 0x80 * pow128(0));
    assert(pow128(2) == 0x80 * pow128(1));
    assert(pow128(3) == 0x80 * pow128(2));
    assert(pow128(4) == 0x80 * pow128(3));
    assert(pow128(5) == 0x80 * pow128(4));
}

/// A value below `pow128(k)` encodes in at most `k` bytes.
pub proof fn lemma_encoding_len_bound(v: nat, k: nat)
    requires
        1 <= k,
        v < pow128(k),
    ensures
        varint_encoding(v).len() <= k,
    decreases k,
{
    if v < 0x80 {
    } else {
        assert(pow128(k) == 0x80 * pow128((k - 1) as nat));
        if k == 1 {
            assert(pow128(0) == 1);
            assert(false);
        }
        assert(v / 0x80 < pow128((k - 1) as nat)) by {
            vstd::arithmetic::div_mod::lemma_multiply_divide_lt(
                v as int,
                0x80,
                pow128((k - 1) as nat) as int,
            );
        }
        lemma_encoding_len_bound(v / 0x80, (k - 1) as nat);
    }
}

/// Parsing a buffer that starts with the encoding of `v` yields `v` back and
/// consumes exactly the encoding, whatever follows it.
pub proof fn lemma_parse_of_encoding(v: nat, rest: Seq<u8>)
    requires
        v < 0x100000000,
    ensures
        parse_varint(varint_encoding(v) + rest) == Some(
            (v, varint_encoding(v).len() as int),
        ),
    decreases v,
{
    let s = varint_encoding(v) + rest;
    if v < 0x80 {
        assert(s[0] == v as u8);
    } else {
        assert(s[0] == (v % 0x80 + 0x80) as u8);
        assert(s[0] >= 0x80);
        assert(s.drop_first() =~= varint_encoding(v / 0x80) + rest);
        assert(v / 0x80 < 0x100000000);
        lemma_parse_of_encoding(v / 0x80, rest);
        lemma_pow128_values();
        assert(v / 0x80 < 0x10000000) by {
            vstd::arithmetic::div_mod::lemma_multiply_divide_lt(v as int, 0x80, 0x10000000);
        }
        lemma_encoding_len_bound(v / 0x80, 4);
        assert((s[0] % 0x80) as nat + 0x80 * (v / 0x80) == v);
    }
}

/// Round-trip law for single values: decoding the encoding of any 32-bit
/// value gives that value back, consuming the whole encoding.
pub proof fn lemma_varint_round_trip(v: u32)
    ensures
        parse_varint(varint_encoding(v as nat)) == Some(
            (v as nat, varint_encoding(v as nat).len() as int),
        ),
{
    lemma_parse_of_encoding(v as nat, Seq::empty());
    assert(varint_encoding(v as nat) + Seq::empty() =~= varint_encoding(v as nat));
}

/// Round-trip law for postings: decoding the delta-varint encoding of any
/// strictly ascending id list gives the list back.
pub proof fn lemma_postings_round_trip(ids: Seq<u32>)
    requires
        sorted_strict(ids),
    ensures
        spec_decode_postings(postings_encoding(ids), 0) == Some(ids),
{
    lemma_decode_encode_from(ids, 0);
}

proof fn lemma_decode_encode_from(ids: Seq<u32>, prev: u32)
    requires
        sorted_strict(ids),
        ids.len() > 0 ==> prev <= ids[0],
    ensures
        spec_decode_postings(postings_encoding_from(ids, prev), prev) == Some(ids),
    decreases ids.len(),
{
    if ids.len() == 0 {
        assert(ids =~= Seq::<u32>::empty());
    } else {
        let d = (ids[0] - prev) as nat;
        let enc = varint_encoding(d);
        let tail = postings_encoding_from(ids.drop_first(), ids[0]);
        let s = postings_encoding_from(ids, prev);
        assert(s == enc + tail);
        lemma_parse_of_encoding(d, tail);
        assert(parse_varint(s) == Some((d, enc.len() as int)));
        assert(d % 0x100000000 == d);
        assert(prev as nat + d == ids[0] as nat);
        assert(s.skip(enc.len() as int) =~= tail);
        assert(sorted_strict(ids.drop_first()));
        lemma_decode_encode_from(ids.drop_first(), ids[0]);
        assert(s.len() > 0);
        assert(spec_decode_postings(s, prev) == Some(seq![ids[0]] + ids.drop_first()));
        assert(seq![ids[0]] + ids.drop_first() =~= ids);
    }
}

/// Compression law: when every gap (the first id's gap taken from zero) fits
/// in 21 bits, each delta encodes in at most three bytes, so the buffer is
/// strictly shorter than the four bytes per id of a fixed-width layout.
pub proof fn lemma_postings_compression(ids: Seq<u32>)
    requires
        sorted_strict(ids),
        ids.len() > 1,
        ids[0] < 0x200000,
        forall|i: int| 0 < i < ids.len() ==> (#[trigger] ids[i]) - ids[i - 1] < 0x200000,
    ensures
        postings_encoding(ids).len() < 4 * ids.len(),
{
    lemma_postings_len_bound(ids, 0);
}

proof fn lemma_postings_len_bound(ids: Seq<u32>, prev: u32)
    requires
        sorted_strict(ids),
        ids.len() > 0 ==> prev <= ids[0] && ids[0] - prev < 0x200000,
        forall|i: int| 0 < i < ids.len() ==> (#[trigger] ids[i]) - ids[i - 1] < 0x200000,
    ensures
        postings_encoding_from(ids, prev).len() <= 3 * ids.len(),
    decreases ids.len(),
{
    if ids.len() == 0 {
    } else {
        let d = (ids[0] - prev) as nat;
        lemma_pow128_values();
        lemma_encoding_len_bound(d, 3);
        assert(sorted_strict(ids.drop_first()));
        assert(forall|i: int|
            0 < i < ids.drop_first().len() ==> (#[trigger] ids.drop_first()[i])
                - ids.drop_first()[i - 1] < 0x200000);
        lemma_postings_len_bound(ids.drop_first(), ids[0]);
    }
}

/// Encode a 32-bit value as a little-endian base-128 varint.
pub fn encode_varint(value: u32) -> (r: Vec<u8>)
    ensures
        r@ == varint_encoding(value as nat),
{
    let mut buf: Vec<u8> = Vec::new();
    let mut v: u32 = value;
    while v >= 0x80
        invariant
            varint_encoding(value as nat) == buf@ + varint_encoding(v as nat),
        decreases v,
    {
        let byte: u8 = (v % 0x80) as u8 + 0x80;
        proof {
            assert(varint_encoding(v as nat) == seq![(v as nat % 0x80 + 0x80) as u8]
                + varint_encoding(v as nat / 0x80));
            assert(buf@.push(byte) + varint_encoding((v / 0x80) as nat) =~= buf@ + varint_encoding(
                v as nat,
            ));
        }
        buf.push(byte);
        v = v / 0x80;
    }
    proof {
        assert(varint_encoding(v as nat) =~= seq![v as u8]);
        assert(buf@.push(v as u8) =~= buf@ + varint_encoding(v as nat));
    }
    buf.push(v as u8);
    buf
}

/// Decode the varint standing at offset `start` of `data`; on success the
/// value (its low 32 bits, as the accumulation makes them) and the offset
/// just past the varint.
fn decode_varint_from(data: &[u8], start: usize) -> (r: Result<(u32, usize), CodecError>)
    requires
        start <= data@.len(),
    ensures
        ({
            let p = parse_varint(data@.skip(start as int));
            match r {
                Ok((v, end)) => match p {
                    Some((raw, len)) => end == start + len && v as nat == raw % 0x100000000,
                    None => false,
                },
                Err(e) => p is None && e == CodecError::CorruptData,
            }
        }),
{
    let ghost s = data@.skip(start as int);
    let mut idx: usize = start;
    let mut acc: u64 = 0;
    let mut mult: u64 = 1;
    proof {
        lemma_pow128_values();
        assert(data@.subrange(start as int, start as int) =~= Seq::<u8>::empty());
    }
    loop
        invariant
            start <= idx <= data@.len(),
            idx - start <= 4,
            s == data@.skip(start as int),
            forall|i: int| start <= i < idx ==> data@[i] >= 0x80,
            mult == pow128((idx - start) as nat),
            acc == varint_value(data@.subrange(start as int, idx as int)),
            acc < mult,
            mult <= 0x10000000,
        decreases data@.len() - idx,
    {
        proof {
            assert(forall|i: int| 0 <= i < idx - start ==> s[i] == data@[start + i]);
        }
        if idx >= data.len() {
            proof {
                lemma_parse_varint_none(s);
            }
            return Err(CodecError::CorruptData);
        }
        let b = data[idx];
        proof {
            assert(s[idx - start] == data@[idx as int]);
        }
        if b < 0x80 {
            proof {
                lemma_parse_varint_terminated(s, idx - start);
                assert(s.subrange(0, idx - start + 1) =~= data@.subrange(
                    start as int,
                    idx as int + 1,
                ));
                assert(data@.subrange(start as int, idx as int + 1) =~= data@.subrange(
                    start as int,
                    idx as int,
                ).push(b));
                lemma_varint_value_push(data@.subrange(start as int, idx as int), b);
                assert(b % 0x80 == b);
            }
            proof {
                assert(mult * (b as u64) <= 0x10000000 * 0x7f) by (nonlinear_arith)
                    requires
                        mult <= 0x10000000,
                        b < 0x80,
                ;
            }
            let w: u64 = acc + mult * (b as u64);
            proof {
                assert(b % 0x80 == b);
            }
            let v: u32 = (w % 0x100000000) as u32;
            return Ok((v, idx + 1));
        }
        if idx - start == 4 {
            proof {
                lemma_parse_varint_none(s);
            }
            return Err(CodecError::CorruptData);
        }
        proof {
            assert(data@.subrange(start as int, idx as int + 1) =~= data@.subrange(
                start as int,
                idx as int,
            ).push(b));
            lemma_varint_value_push(data@.subrange(start as int, idx as int), b);
        }
        proof {
            lemma_pow128_values();
            let k = (idx - start) as nat;
            assert(k == 0 || k == 1 || k == 2 || k == 3);
            assert(pow128(k) <= 0x200000);
            assert(acc + mult * ((b % 0x80) as u64) < mult * 0x80) by (nonlinear_arith)
                requires
                    acc < mult,
                    mult <= 0x200000,
                    ((b % 0x80) as u64) < 0x80,
            ;
        }
        acc = acc + mult * ((b % 0x80) as u64);
        mult = mult * 0x80;
        idx = idx + 1;
    }
}

/// Decode the varint at the front of `data`; bytes past its terminator are
/// left unread. `CorruptData` when the buffer ends inside the varint or a
/// sixth byte would be needed.
pub fn decode_varint(data: &[u8]) -> (r: Result<u32, CodecError>)
    ensures
        ({
            let p = parse_varint(data@);
            match r {
                Ok(v) => match p {
                    Some((raw, len)) => v as nat == raw % 0x100000000,
                    None => false,
                },
                Err(e) => p is None && e == CodecError::CorruptData,
            }
        }),
{
    proof {
        assert(data@.skip(0) =~= data@);
    }
    match decode_varint_from(data, 0) {
        Ok((v, _)) => Ok(v),
        Err(e) => Err(e),
    }
}

/// Delta-encode a strictly ascending id list: each id's gap from its
/// predecessor as a varint, concatenated. The strict order rules out the
/// gap underflow that unsorted input would cause.
pub fn encode_postings(doc_ids: &[u32]) -> (r: Vec<u8>)
    requires
        sorted_strict(doc_ids@),
    ensures
        r@ == postings_encoding(doc_ids@),
{
    let mut buf: Vec<u8> = Vec::new();
    let mut prev: u32 = 0;
    let mut i: usize = 0;
    proof {
        assert(doc_ids@.skip(0) =~= doc_ids@);
        assert(Seq::<u8>::empty() + postings_encoding_from(doc_ids@, 0) =~= postings_encoding_from(
            doc_ids@,
            0,
        ));
    }
    while i < doc_ids.len()
        invariant
            i <= doc_ids@.len(),
            sorted_strict(doc_ids@),
            prev == if i == 0 {
                0u32
            } else {
                doc_ids@[i - 1]
            },
            postings_encoding(doc_ids@) == buf@ + postings_encoding_from(
                doc_ids@.skip(i as int),
                prev,
            ),
        decreases doc_ids@.len() - i,
    {
        let id = doc_ids[i];
        proof {
            assert(doc_ids@.skip(i as int)[0] == doc_ids@[i as int]);
            if i > 0 {
                assert(doc_ids@[i - 1] < doc_ids@[i as int]);
            }
        }
        let delta = id - prev;
        let mut chunk = encode_varint(delta);
        proof {
            assert(doc_ids@.skip(i as int).drop_first() =~= doc_ids@.skip(i as int + 1));
            assert(postings_encoding_from(doc_ids@.skip(i as int), prev) == varint_encoding(
                delta as nat,
            ) + postings_encoding_from(doc_ids@.skip(i as int + 1), id));
            assert((buf@ + chunk@) + postings_encoding_from(doc_ids@.skip(i as int + 1), id)
                =~= buf@ + postings_encoding_from(doc_ids@.skip(i as int), prev));
        }
        buf.append(&mut chunk);
        prev = id;
        i = i + 1;
    }
    proof {
        assert(doc_ids@.skip(i as int) =~= Seq::<u32>::empty());
        assert(buf@ + postings_encoding_from(doc_ids@.skip(i as int), prev) =~= buf@);
    }
    buf
}

/// Decode a delta-varint postings buffer back into absolute document ids.
/// Mid-stream corruption is reported as `CorruptData`, never swallowed into
/// a truncated list.
pub fn decode_postings(data: &[u8]) -> (r: Result<Vec<u32>, CodecError>)
    ensures
        match r {
            Ok(ids) => spec_decode_postings(data@, 0) == Some(ids@),
            Err(e) => spec_decode_postings(data@, 0) is None && e == CodecError::CorruptData,
        },
{
    let mut ids: Vec<u32> = Vec::new();
    let mut pos: usize = 0;
    let mut prev: u32 = 0;
    proof {
        assert(data@.skip(0) =~= data@);
    }
    while pos < data.len()
        invariant
            pos <= data@.len(),
            spec_decode_postings(data@.skip(pos as int), prev) is Some ==> spec_decode_postings(
                data@,
                0,
            ) is Some && spec_decode_postings(data@, 0)->Some_0 == ids@ + spec_decode_postings(
                data@.skip(pos as int),
                prev,
            )->Some_0,
            spec_decode_postings(data@.skip(pos as int), prev) is None ==> spec_decode_postings(
                data@,
                0,
            ) is None,
        decreases data@.len() - pos,
    {
        let ghost tail = data@.skip(pos as int);
        proof {
            assert(tail.len() > 0);
        }
        match decode_varint_from(data, pos) {
            Err(_) => {
                return Err(CodecError::CorruptData);
            },
            Ok((delta, end)) => {
                proof {
                    lemma_parse_varint_props(tail);
                }
                let sum: u64 = prev as u64 + delta as u64;
                if sum > 0xFFFFFFFF {
                    return Err(CodecError::CorruptData);
                }
                let next: u32 = sum as u32;
                proof {
                    let (raw, len) = parse_varint(tail)->Some_0;
                    assert(tail.skip(len) =~= data@.skip(end as int));
                    assert(spec_decode_postings(tail, prev) is Some ==> spec_decode_postings(
                        tail,
                        prev,
                    )->Some_0 == seq![next] + spec_decode_postings(data@.skip(end as int), next)->Some_0);
                    assert(spec_decode_postings(data@.skip(end as int), next) is Some
                        ==> ids@ + (seq![next] + spec_decode_postings(
                        data@.skip(end as int),
                        next,
                    )->Some_0) =~= ids@.push(next) + spec_decode_postings(
                        data@.skip(end as int),
                        next,
                    )->Some_0);
                }
                ids.push(next);
                prev = next;
                pos = end;
            },
        }
    }
    proof {
        assert(data@.skip(pos as int) =~= Seq::<u8>::empty());
        assert(ids@ + Seq::<u32>::empty() =~= ids@);
    }
    Ok(ids)
}

} // verus!
