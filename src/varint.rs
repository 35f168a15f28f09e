use vstd::prelude::*;

verus! {

/// The varint encoding of `v`: little-endian groups of seven bits, one group
/// per byte, with the continuation bit (bit 7, so a negative `i8`) set on
/// every byte but the last.
pub open spec fn varint(v: nat) -> Seq<i8>
    decreases v,
{
    if v < 128 {
        seq![v as i8]
    } else {
        seq![((v % 128) as int - 128) as i8] + varint(v / 128)
    }
}

/// The seven payload bits of a byte.
pub open spec fn payload(b: i8) -> nat {
    if b >= 0 {
        b as nat
    } else {
        (b + 128) as nat
    }
}

/// The value of the varint at the start of `s`: bytes are consumed up to and
/// including the first one whose continuation bit is clear.
pub open spec fn decode_varint(s: Seq<i8>) -> nat
    decreases s.len(),
{
    if s.len() == 0 {
        0
    } else if s[0] >= 0 {
        s[0] as nat
    } else {
        payload(s[0]) + 128 * decode_varint(s.drop_first())
    }
}

/// How many bytes the varint at the start of `s` occupies.
pub open spec fn varint_len(s: Seq<i8>) -> nat
    decreases s.len(),
{
    if s.len() == 0 {
        0
    } else if s[0] >= 0 {
        1
    } else {
        1 + varint_len(s.drop_first())
    }
}

/// The concatenation of the varints of `vals`, in order.
pub open spec fn encode_stream(vals: Seq<nat>) -> Seq<i8>
    decreases vals.len(),
{
    if vals.len() == 0 {
        seq![]
    } else {
        varint(vals[0]) + encode_stream(vals.drop_first())
    }
}

/// The values of the consecutive varints that make up `b`.
pub open spec fn decode_stream(b: Seq<i8>) -> Seq<nat>
    decreases b.len(),
{
    if b.len() == 0 {
        seq![]
    } else {
        let n = varint_len(b);
        if 0 < n <= b.len() {
            seq![decode_varint(b)] + decode_stream(b.skip(n as int))
        } else {
            seq![]
        }
    }
}

/// The number of binary digits of `v` (zero for zero).
pub open spec fn bit_len(v: nat) -> nat
    decreases v,
{
    if v == 0 {
        0
    } else {
        1 + bit_len(v / 2)
    }
}

/// Conversion of a non-negative integer to its varint bytes.
pub trait Varint {
    /// The integer that is encoded.
    spec fn varint_value(&self) -> nat;

    fn to_varint(&self) -> (r: Vec<i8>)
        ensures
            r@ == varint(self.varint_value()),
    ;
}

impl Varint for usize {
    open spec fn varint_value(&self) -> nat {
        *self as nat
    }

    fn to_varint(&self) -> (r: Vec<i8>) {
        let mut input: usize = *self;
        let mut output: Vec<i8> = Vec::new();
        while input >= 128
            invariant
                output@ + varint(input as nat) == varint(*self as nat),
            decreases input,
        {
            let group: i8 = (input % 128) as i8;
            let byte: i8 = group - 127 - 1;
            proof {
                assert(output@.push(byte) + varint((input / 128) as nat) =~= output@ + varint(
                    input as nat,
                ));
            }
            output.push(byte);
            input = input / 128;
        }
        proof {
            assert(output@.push(input as i8) =~= output@ + varint(input as nat));
        }
        output.push(input as i8);
        output
    }
}

/// A varint followed by anything decodes to its value and is recognised as
/// exactly its own length.
pub proof fn lemma_decode_varint_prefix(v: nat, rest: Seq<i8>)
    ensures
        decode_varint(varint(v) + rest) == v,
        varint_len(varint(v) + rest) == varint(v).len(),
        1 <= varint(v).len(),
    decreases v,
{
    let s = varint(v) + rest;
    if v < 128 {
        assert(s[0] == v as i8);
    } else {
        let b = ((v % 128) as int - 128) as i8;
        assert(s[0] == b);
        assert(s.drop_first() =~= varint(v / 128) + rest);
        lemma_decode_varint_prefix(v / 128, rest);
    }
}

proof fn lemma_bit_len_bound(v: nat, k: nat)
    requires
        v < vstd::arithmetic::power2::pow2(k),
    ensures
        bit_len(v) <= k,
    decreases k,
{
    if v > 0 {
        if k == 0 {
            vstd::arithmetic::power2::lemma2_to64();
        } else {
            vstd::arithmetic::power2::lemma_pow2_unfold(k);
            lemma_bit_len_bound(v / 2, (k - 1) as nat);
        }
    }
}

proof fn lemma_bit_len_shift(v: nat)
    requires
        v >= 128,
    ensures
        bit_len(v) == 7 + bit_len(v / 128),
{
    let v1 = v / 2;
    let v2 = v1 / 2;
    let v3 = v2 / 2;
    let v4 = v3 / 2;
    let v5 = v4 / 2;
    let v6 = v5 / 2;
    let v7 = v6 / 2;
    assert(v7 == v / 128);
    assert(bit_len(v) == 1 + bit_len(v1));
    assert(bit_len(v1) == 1 + bit_len(v2));
    assert(bit_len(v2) == 1 + bit_len(v3));
    assert(bit_len(v3) == 1 + bit_len(v4));
    assert(bit_len(v4) == 1 + bit_len(v5));
    assert(bit_len(v5) == 1 + bit_len(v6));
    assert(bit_len(v6) == 1 + bit_len(v7));
}

proof fn lemma_varint_len_bits(v: nat)
    requires
        v > 0,
    ensures
        varint(v).len() == (bit_len(v) + 6) / 7,
    decreases v,
{
    if v < 128 {
        vstd::arithmetic::power2::lemma2_to64();
        lemma_bit_len_bound(v, 7);
        assert(bit_len(v) == 1 + bit_len(v / 2));
    } else {
        lemma_bit_len_shift(v);
        lemma_varint_len_bits(v / 128);
    }
}

/// Decoding inverts encoding; zero takes one byte, and a positive value takes
/// one byte per started group of seven binary digits.
pub proof fn lemma_varint_round_trip(v: nat)
    ensures
        decode_varint(varint(v)) == v,
        varint(0).len() == 1,
        v > 0 ==> varint(v).len() == (bit_len(v) + 6) / 7,
{
    lemma_decode_varint_prefix(v, seq![]);
    assert(varint(v) + seq![] =~= varint(v));
    if v > 0 {
        lemma_varint_len_bits(v);
    }
}

/// Appending a value to the stream appends its varint to the bytes.
pub proof fn lemma_encode_stream_push(vals: Seq<nat>, v: nat)
    ensures
        encode_stream(vals.push(v)) == encode_stream(vals) + varint(v),
    decreases vals.len(),
{
    if vals.len() == 0 {
        assert(vals.push(v).drop_first() =~= seq![]);
        assert(encode_stream(vals.push(v).drop_first()) =~= seq![]);
        assert(encode_stream(vals) =~= seq![]);
        assert(encode_stream(vals.push(v)) =~= encode_stream(vals) + varint(v));
    } else {
        assert(vals.push(v).drop_first() =~= vals.drop_first().push(v));
        lemma_encode_stream_push(vals.drop_first(), v);
        assert(vals.push(v)[0] == vals[0]);
        assert(encode_stream(vals.push(v)) == varint(vals[0]) + encode_stream(
            vals.drop_first().push(v),
        ));
        assert(encode_stream(vals.push(v)) =~= encode_stream(vals) + varint(v));
    }
}

/// A stream of varints decodes back to the values it was made from, one
/// entry per value.
pub proof fn lemma_stream_round_trip(vals: Seq<nat>)
    ensures
        decode_stream(encode_stream(vals)) == vals,
    decreases vals.len(),
{
    if vals.len() == 0 {
        assert(decode_stream(encode_stream(vals)) =~= vals);
    } else {
        let tail = encode_stream(vals.drop_first());
        let b = encode_stream(vals);
        lemma_decode_varint_prefix(vals[0], tail);
        assert(b == varint(vals[0]) + tail);
        assert(b.skip(varint(vals[0]).len() as int) =~= tail);
        lemma_stream_round_trip(vals.drop_first());
        assert(decode_stream(b) =~= vals);
    }
}

} // verus!
