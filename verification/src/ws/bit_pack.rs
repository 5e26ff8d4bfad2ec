//! The lexer for bit-packed Whitespace programs, and the encoding it reads.
use vstd::prelude::*;

use crate::ws::token::Token;

verus! {

/// The number of leading bits of the final byte of a bit-packed program that
/// carry data: everything after its lowest set bit is padding.
pub open spec fn live_len(b: u8) -> int {
    if b & 0x01 != 0 {
        8
    } else if b & 0x02 != 0 {
        7
    } else if b & 0x04 != 0 {
        6
    } else if b & 0x08 != 0 {
        5
    } else if b & 0x10 != 0 {
        4
    } else if b & 0x20 != 0 {
        3
    } else if b & 0x40 != 0 {
        2
    } else if b & 0x80 != 0 {
        1
    } else {
        0
    }
}

/// Bit `i` of `src`, counting from the most significant bit of the first byte.
pub open spec fn bit_at(src: Seq<u8>, i: int) -> bool {
    (src[i / 8] >> ((7 - i % 8) as u8)) & 1u8 == 1u8
}

/// The number of bits of `src` that carry data.
pub open spec fn stream_len(src: Seq<u8>) -> int {
    if src.len() == 0 {
        0
    } else {
        8 * (src.len() - 1) + live_len(src.last())
    }
}

/// The data bits of a bit-packed program: every bit of every byte, most
/// significant first, except the trailing zero bits of the final byte.
pub open spec fn bit_stream(src: Seq<u8>) -> Seq<bool> {
    Seq::new(stream_len(src) as nat, |i: int| bit_at(src, i))
}

/// The first token encoded at the front of `bits` and the number of bits it
/// takes: `0` is S, `10` is T, `11` is L. A lone final `1` is the end marker.
pub open spec fn decode_first(bits: Seq<bool>) -> Option<(Token, int)> {
    if bits.len() == 0 {
        None
    } else if !bits[0] {
        Some((Token::S, 1))
    } else if bits.len() == 1 {
        None
    } else if bits[1] {
        Some((Token::L, 2))
    } else {
        Some((Token::T, 2))
    }
}

/// Every token encoded in `bits`, in order, up to the end marker or the end.
pub open spec fn decode_all(bits: Seq<bool>) -> Seq<Token>
    decreases bits.len(),
{
    match decode_first(bits) {
        Some((t, k)) => if 0 < k <= bits.len() {
            seq![t] + decode_all(bits.skip(k))
        } else {
            Seq::empty()
        },
        None => Seq::empty(),
    }
}

/// The bits that encode one token.
pub open spec fn token_code(t: Token) -> Seq<bool> {
    match t {
        Token::S => seq![false],
        Token::T => seq![true, false],
        Token::L => seq![true, true],
    }
}

/// The bits that encode a token sequence.
pub open spec fn encode_tokens(ts: Seq<Token>) -> Seq<bool>
    decreases ts.len(),
{
    if ts.len() == 0 {
        Seq::empty()
    } else {
        token_code(ts[0]) + encode_tokens(ts.drop_first())
    }
}

/// Each call of `next` yields the first of the tokens still encoded and leaves
/// the rest: the whole run of calls yields `decode_all` of the bit stream.
pub proof fn law_next_yields_decode_all(bits: Seq<bool>)
    ensures
        match decode_first(bits) {
            Some((t, k)) => decode_all(bits) == seq![t] + decode_all(bits.skip(k)),
            None => decode_all(bits) == Seq::<Token>::empty() && decode_all(Seq::empty())
                == Seq::<Token>::empty(),
        },
{
}

/// The token code is prefix-free: decoding the encoding of any token
/// sequence, with or without an end marker after it, gives the sequence back.
pub proof fn law_decode_encode(ts: Seq<Token>)
    ensures
        decode_all(encode_tokens(ts) + seq![true]) == ts,
        decode_all(encode_tokens(ts)) == ts,
    decreases ts.len(),
{
    if ts.len() == 0 {
        assert(encode_tokens(ts) + seq![true] =~= seq![true]);
        assert(decode_all(encode_tokens(ts)) =~= ts);
        assert(decode_all(seq![true]) =~= ts);
    } else {
        let rest = ts.drop_first();
        law_decode_encode(rest);
        let c = token_code(ts[0]);
        let e = encode_tokens(ts);
        assert(e =~= c + encode_tokens(rest));
        assert((e + seq![true]).skip(c.len() as int) =~= encode_tokens(rest) + seq![true]);
        assert(e.skip(c.len() as int) =~= encode_tokens(rest));
        assert(decode_first(e + seq![true]) == Some((ts[0], c.len() as int)));
        assert(decode_first(e) == Some((ts[0], c.len() as int)));
        assert(seq![ts[0]] + rest =~= ts);
    }
}

/// The end of the stream is final: with no bits left, `next` yields nothing
/// and there is nothing left to decode.
pub proof fn law_end_is_final()
    ensures
        decode_first(Seq::<bool>::empty()) is None,
        decode_all(Seq::<bool>::empty()) == Seq::<Token>::empty(),
{
}

/// Bit `i` of `bits`, or zero past either end.
pub open spec fn bit_or_zero(bits: Seq<bool>, i: int) -> bool {
    0 <= i < bits.len() && bits[i]
}

/// The byte with bit `t` (most significant first) set for each of `c0` to
/// `c7` that holds.
pub open spec fn byte_of(
    c0: bool,
    c1: bool,
    c2: bool,
    c3: bool,
    c4: bool,
    c5: bool,
    c6: bool,
    c7: bool,
) -> u8 {
    (if c0 {
        128u8
    } else {
        0u8
    }) | (if c1 {
        64u8
    } else {
        0u8
    }) | (if c2 {
        32u8
    } else {
        0u8
    }) | (if c3 {
        16u8
    } else {
        0u8
    }) | (if c4 {
        8u8
    } else {
        0u8
    }) | (if c5 {
        4u8
    } else {
        0u8
    }) | (if c6 {
        2u8
    } else {
        0u8
    }) | (if c7 {
        1u8
    } else {
        0u8
    })
}

/// Byte `j` of the packing of `bits`.
pub open spec fn pack_byte(bits: Seq<bool>, j: int) -> u8 {
    byte_of(
        bit_or_zero(bits, 8 * j),
        bit_or_zero(bits, 8 * j + 1),
        bit_or_zero(bits, 8 * j + 2),
        bit_or_zero(bits, 8 * j + 3),
        bit_or_zero(bits, 8 * j + 4),
        bit_or_zero(bits, 8 * j + 5),
        bit_or_zero(bits, 8 * j + 6),
        bit_or_zero(bits, 8 * j + 7),
    )
}

/// `bits` packed into bytes, most significant bit first, the last byte padded
/// with zeros.
pub open spec fn pack_bits(bits: Seq<bool>) -> Seq<u8> {
    Seq::new(((bits.len() + 7) / 8) as nat, |j: int| pack_byte(bits, j))
}

proof fn lemma_byte_of_bits(c0: bool, c1: bool, c2: bool, c3: bool, c4: bool, c5: bool, c6: bool, c7: bool)
    ensures
        ((byte_of(c0, c1, c2, c3, c4, c5, c6, c7) >> 7u8) & 1u8 == 1u8) == c0,
        ((byte_of(c0, c1, c2, c3, c4, c5, c6, c7) >> 6u8) & 1u8 == 1u8) == c1,
        ((byte_of(c0, c1, c2, c3, c4, c5, c6, c7) >> 5u8) & 1u8 == 1u8) == c2,
        ((byte_of(c0, c1, c2, c3, c4, c5, c6, c7) >> 4u8) & 1u8 == 1u8) == c3,
        ((byte_of(c0, c1, c2, c3, c4, c5, c6, c7) >> 3u8) & 1u8 == 1u8) == c4,
        ((byte_of(c0, c1, c2, c3, c4, c5, c6, c7) >> 2u8) & 1u8 == 1u8) == c5,
        ((byte_of(c0, c1, c2, c3, c4, c5, c6, c7) >> 1u8) & 1u8 == 1u8) == c6,
        ((byte_of(c0, c1, c2, c3, c4, c5, c6, c7) >> 0u8) & 1u8 == 1u8) == c7,
        c7 ==> live_len(byte_of(c0, c1, c2, c3, c4, c5, c6, c7)) == 8,
        !c7 && c6 ==> live_len(byte_of(c0, c1, c2, c3, c4, c5, c6, c7)) == 7,
        !c7 && !c6 && c5 ==> live_len(byte_of(c0, c1, c2, c3, c4, c5, c6, c7)) == 6,
        !c7 && !c6 && !c5 && c4 ==> live_len(byte_of(c0, c1, c2, c3, c4, c5, c6, c7)) == 5,
        !c7 && !c6 && !c5 && !c4 && c3 ==> live_len(byte_of(c0, c1, c2, c3, c4, c5, c6, c7)) == 4,
        !c7 && !c6 && !c5 && !c4 && !c3 && c2 ==> live_len(byte_of(c0, c1, c2, c3, c4, c5, c6, c7))
            == 3,
        !c7 && !c6 && !c5 && !c4 && !c3 && !c2 && c1 ==> live_len(
            byte_of(c0, c1, c2, c3, c4, c5, c6, c7),
        ) == 2,
        !c7 && !c6 && !c5 && !c4 && !c3 && !c2 && !c1 && c0 ==> live_len(
            byte_of(c0, c1, c2, c3, c4, c5, c6, c7),
        ) == 1,
{
    let x = byte_of(c0, c1, c2, c3, c4, c5, c6, c7);
    assert(((x >> 7u8) & 1u8 == 1u8) == c0) by (bit_vector)
        requires
            x == byte_of(c0, c1, c2, c3, c4, c5, c6, c7),
    ;
    assert(((x >> 6u8) & 1u8 == 1u8) == c1) by (bit_vector)
        requires
            x == byte_of(c0, c1, c2, c3, c4, c5, c6, c7),
    ;
    assert(((x >> 5u8) & 1u8 == 1u8) == c2) by (bit_vector)
        requires
            x == byte_of(c0, c1, c2, c3, c4, c5, c6, c7),
    ;
    assert(((x >> 4u8) & 1u8 == 1u8) == c3) by (bit_vector)
        requires
            x == byte_of(c0, c1, c2, c3, c4, c5, c6, c7),
    ;
    assert(((x >> 3u8) & 1u8 == 1u8) == c4) by (bit_vector)
        requires
            x == byte_of(c0, c1, c2, c3, c4, c5, c6, c7),
    ;
    assert(((x >> 2u8) & 1u8 == 1u8) == c5) by (bit_vector)
        requires
            x == byte_of(c0, c1, c2, c3, c4, c5, c6, c7),
    ;
    assert(((x >> 1u8) & 1u8 == 1u8) == c6) by (bit_vector)
        requires
            x == byte_of(c0, c1, c2, c3, c4, c5, c6, c7),
    ;
    assert(((x >> 0u8) & 1u8 == 1u8) == c7) by (bit_vector)
        requires
            x == byte_of(c0, c1, c2, c3, c4, c5, c6, c7),
    ;
    assert({
        &&& c7 ==> live_len(x) == 8
        &&& !c7 && c6 ==> live_len(x) == 7
        &&& !c7 && !c6 && c5 ==> live_len(x) == 6
        &&& !c7 && !c6 && !c5 && c4 ==> live_len(x) == 5
        &&& !c7 && !c6 && !c5 && !c4 && c3 ==> live_len(x) == 4
        &&& !c7 && !c6 && !c5 && !c4 && !c3 && c2 ==> live_len(x) == 3
        &&& !c7 && !c6 && !c5 && !c4 && !c3 && !c2 && c1 ==> live_len(x) == 2
        &&& !c7 && !c6 && !c5 && !c4 && !c3 && !c2 && !c1 && c0 ==> live_len(x) == 1
    }) by (bit_vector)
        requires
            x == byte_of(c0, c1, c2, c3, c4, c5, c6, c7),
    ;
}

/// Bit `i` of a packing is bit `i` of what was packed, or zero in the padding.
proof fn lemma_pack_bit(bits: Seq<bool>, i: int)
    requires
        0 <= i < 8 * pack_bits(bits).len(),
    ensures
        bit_at(pack_bits(bits), i) == bit_or_zero(bits, i),
{
    let j = i / 8;
    let t = i % 8;
    lemma_byte_of_bits(
        bit_or_zero(bits, 8 * j),
        bit_or_zero(bits, 8 * j + 1),
        bit_or_zero(bits, 8 * j + 2),
        bit_or_zero(bits, 8 * j + 3),
        bit_or_zero(bits, 8 * j + 4),
        bit_or_zero(bits, 8 * j + 5),
        bit_or_zero(bits, 8 * j + 6),
        bit_or_zero(bits, 8 * j + 7),
    );
    assert(pack_bits(bits)[j] == pack_byte(bits, j));
    assert(i == 8 * j + t);
}

/// Packing bits that end in a one bit (the end marker) and reading the bits
/// back gives exactly those bits: the zero padding is dropped.
pub proof fn law_pack_stream(bits: Seq<bool>)
    requires
        bits.len() >= 1,
        bits.last(),
    ensures
        bit_stream(pack_bits(bits)) == bits,
{
    let src = pack_bits(bits);
    let len = bits.len() as int;
    let n = src.len() as int;
    let j = n - 1;
    let r = (len - 1) % 8;
    assert(8 * j + r == len - 1);
    let c = |t: int| bit_or_zero(bits, 8 * j + t);
    lemma_byte_of_bits(c(0), c(1), c(2), c(3), c(4), c(5), c(6), c(7));
    assert(src.last() == pack_byte(bits, j));
    assert(c(r));
    assert(live_len(src.last()) == r + 1) by {
        if r == 0 {
            assert(!c(1) && !c(2) && !c(3) && !c(4) && !c(5) && !c(6) && !c(7));
        } else if r == 1 {
            assert(!c(2) && !c(3) && !c(4) && !c(5) && !c(6) && !c(7));
        } else if r == 2 {
            assert(!c(3) && !c(4) && !c(5) && !c(6) && !c(7));
        } else if r == 3 {
            assert(!c(4) && !c(5) && !c(6) && !c(7));
        } else if r == 4 {
            assert(!c(5) && !c(6) && !c(7));
        } else if r == 5 {
            assert(!c(6) && !c(7));
        } else if r == 6 {
            assert(!c(7));
        }
    }
    assert(stream_len(src) == len);
    assert forall|i: int| 0 <= i < len implies bit_stream(src)[i] == bits[i] by {
        lemma_pack_bit(bits, i);
    }
    assert(bit_stream(src) =~= bits);
}

/// A bit-packed program made by encoding tokens, adding the end marker and
/// packing into bytes lexes back to exactly those tokens.
pub proof fn law_lex_packed_tokens(ts: Seq<Token>)
    ensures
        decode_all(bit_stream(pack_bits(encode_tokens(ts) + seq![true]))) == ts,
{
    let bits = encode_tokens(ts) + seq![true];
    law_pack_stream(bits);
    law_decode_encode(ts);
}

proof fn lemma_encode_last(ts: Seq<Token>)
    requires
        ts.len() > 0,
    ensures
        encode_tokens(ts).len() > 0,
        encode_tokens(ts).last() == (ts.last() == Token::L),
    decreases ts.len(),
{
    let rest = ts.drop_first();
    if rest.len() > 0 {
        lemma_encode_last(rest);
        assert(rest.last() == ts.last());
    } else {
        assert(encode_tokens(rest) =~= Seq::<bool>::empty());
        assert(encode_tokens(ts) =~= token_code(ts[0]));
    }
}

/// A program whose last token is L needs no end marker: its encoding packed
/// into bytes lexes back to exactly its tokens.
pub proof fn law_lex_packed_tokens_ending_in_l(ts: Seq<Token>)
    requires
        ts.len() > 0,
        ts.last() == Token::L,
    ensures
        decode_all(bit_stream(pack_bits(encode_tokens(ts)))) == ts,
{
    lemma_encode_last(ts);
    law_pack_stream(encode_tokens(ts));
    law_decode_encode(ts);
}

proof fn lemma_live_len(b: u8, j: u8)
    requires
        j < 8,
    ensures
        ((b << j) == 0u8) <==> (j as int >= live_len(b)),
        0 <= live_len(b) <= 8,
{
    assert(((b << j) == 0u8) <==> (j as int >= live_len(b))) by (bit_vector)
        requires
            j < 8,
    ;
}

/// Bit `t` of a byte, most significant first, is zero past the live bits and
/// one at the last live bit.
proof fn lemma_live_bits(b: u8, t: u8)
    requires
        t < 8,
    ensures
        t as int >= live_len(b) ==> (b >> ((7 - t) as u8)) & 1u8 == 0u8,
        t as int + 1 == live_len(b) ==> (b >> ((7 - t) as u8)) & 1u8 == 1u8,
{
    assert(t as int >= live_len(b) ==> (b >> ((7 - t) as u8)) & 1u8 == 0u8) by (bit_vector)
        requires
            t < 8,
    ;
    assert(t as int + 1 == live_len(b) ==> (b >> ((7 - t) as u8)) & 1u8 == 1u8) by (bit_vector)
        requires
            t < 8,
    ;
}

/// The data bits of a bit-packed program are its bits read byte by byte,
/// most significant first, but for the trailing zero bits of the last byte:
/// every bit left out is a zero of the last byte (all eight when it is zero),
/// and when the last byte is not zero the last bit kept is its last one bit.
pub proof fn law_stream_drops_trailing_zeros(src: Seq<u8>)
    ensures
        0 <= stream_len(src) <= 8 * src.len(),
        forall|i: int| 0 <= i < stream_len(src) ==> #[trigger] bit_stream(src)[i] == bit_at(src, i),
        forall|i: int| stream_len(src) <= i < 8 * src.len() ==> !#[trigger] bit_at(src, i),
        src.len() > 0 && src.last() != 0 ==> stream_len(src) > 8 * (src.len() - 1) && bit_at(
            src,
            stream_len(src) - 1,
        ),
{
    if src.len() > 0 {
        let b = src.last();
        lemma_live_len(b, 0);
        assert forall|i: int| stream_len(src) <= i < 8 * src.len() implies !#[trigger] bit_at(src, i) by {
            assert(i / 8 == src.len() - 1);
            lemma_live_bits(b, (i % 8) as u8);
        }
        assert(b != 0 ==> live_len(b) > 0) by (bit_vector);
        if live_len(b) > 0 {
            let i = stream_len(src) - 1;
            assert(i / 8 == src.len() - 1);
            lemma_live_bits(b, (i % 8) as u8);
        }
    }
}

proof fn lemma_bit_test(b: u8, k: u8)
    requires
        k < 8,
    ensures
        ((b & (1u8 << k)) != 0u8) <==> ((b >> k) & 1u8 == 1u8),
{
    assert(((b & (1u8 << k)) != 0u8) <==> ((b >> k) & 1u8 == 1u8)) by (bit_vector)
        requires
            k < 8,
    ;
}

/// A lexer over a bit-packed Whitespace program.
#[derive(Debug)]
pub struct BitLexer<'a> {
    src: &'a [u8],
    byte_offset: usize,
    bit_offset: u8,
}

impl<'a> BitLexer<'a> {
    #[verifier::type_invariant]
    spec fn inv(self) -> bool {
        &&& self.bit_offset <= 7
        &&& self.byte_offset <= self.src@.len()
        &&& self.byte_offset == self.src@.len() ==> self.bit_offset == 7
        &&& self.pos() <= stream_len(self.src@)
    }

    /// Position of the next bit in the bit stream.
    pub closed spec fn pos(self) -> int {
        self.byte_offset * 8 + (7 - self.bit_offset)
    }

    /// The bytes being lexed.
    pub closed spec fn source(self) -> Seq<u8> {
        self.src@
    }

    /// The data bits not yet consumed.
    pub closed spec fn remaining(self) -> Seq<bool> {
        bit_stream(self.src@).skip(self.pos())
    }

    /// Starts lexing at the first bit of `src`.
    pub fn new(src: &'a [u8]) -> (lex: Self)
        ensures
            lex.source() == src@,
            lex.remaining() == bit_stream(src@),
    {
        let lex = BitLexer { src, byte_offset: 0, bit_offset: 7 };
        assert(bit_stream(src@).skip(0) =~= bit_stream(src@));
        lex
    }

    /// Reads the next data bit.
    pub fn next_bit(&mut self) -> (bit: Option<bool>)
        ensures
            final(self).source() == old(self).source(),
            match bit {
                Some(b) => {
                    &&& old(self).remaining().len() > 0
                    &&& b == old(self).remaining()[0]
                    &&& final(self).remaining() == old(self).remaining().drop_first()
                },
                None => {
                    &&& old(self).remaining().len() == 0
                    &&& final(self).remaining() == old(self).remaining()
                },
            },
    {
        proof {
            use_type_invariant(&*self);
        }
        let ghost src = self.src@;
        let ghost p = self.pos();
        if self.byte_offset >= self.src.len() {
            assert(stream_len(src) <= 8 * src.len());
            return None;
        }
        let byte = self.src[self.byte_offset];
        proof {
            lemma_live_len(byte, (7 - self.bit_offset) as u8);
        }
        if self.byte_offset + 1 == self.src.len() && byte << (7 - self.bit_offset) == 0 {
            return None;
        }
        assert(p < stream_len(src));
        proof {
            lemma_bit_test(byte, self.bit_offset);
            assert(p / 8 == self.byte_offset as int);
            assert(p % 8 == 7 - self.bit_offset);
        }
        let bit = byte & (1 << self.bit_offset) != 0;
        assert(bit == bit_at(src, p));
        if self.bit_offset == 0 {
            self.bit_offset = 7;
            self.byte_offset += 1;
        } else {
            self.bit_offset -= 1;
        }
        assert(self.remaining() =~= bit_stream(src).skip(p).drop_first());
        Some(bit)
    }

    /// Reads the next token: `0` is S, `10` is T and `11` is L; a final lone
    /// `1` marks the end of the program.
    pub fn next(&mut self) -> (tok: Option<Token>)
        ensures
            final(self).source() == old(self).source(),
            match decode_first(old(self).remaining()) {
                Some((t, k)) => {
                    &&& tok == Some(t)
                    &&& final(self).remaining() == old(self).remaining().skip(k)
                },
                None => {
                    &&& tok is None
                    &&& final(self).remaining() == Seq::<bool>::empty()
                },
            },
    {
        let ghost r0 = self.remaining();
        match self.next_bit() {
            Some(true) => match self.next_bit() {
                Some(true) => {
                    assert(r0.drop_first().drop_first() =~= r0.skip(2));
                    Some(Token::L)
                },
                Some(false) => {
                    assert(r0.drop_first().drop_first() =~= r0.skip(2));
                    Some(Token::T)
                },
                None => None,
            },
            Some(false) => {
                assert(r0.drop_first() =~= r0.skip(1));
                Some(Token::S)
            },
            None => None,
        }
    }
}

impl<'a> BitLexer<'a> {
    /// Reads every data bit left with `next_bit`: from a new lexer, every bit
    /// of the source, most significant first, but for the trailing zero bits
    /// of the last byte. After that `next_bit` yields nothing.
    pub fn collect_bits(&mut self) -> (bits: Vec<bool>)
        ensures
            final(self).source() == old(self).source(),
            bits@ == old(self).remaining(),
            final(self).remaining() == Seq::<bool>::empty(),
    {
        let mut bits: Vec<bool> = Vec::new();
        let ghost start = self.remaining();
        loop
            invariant
                self.source() == old(self).source(),
                start == old(self).remaining(),
                start == bits@ + self.remaining(),
            ensures
                self.source() == old(self).source(),
                bits@ == start,
                self.remaining() == Seq::<bool>::empty(),
            decreases self.remaining().len(),
        {
            let ghost r = self.remaining();
            match self.next_bit() {
                Some(b) => {
                    assert(bits@.push(b) + self.remaining() =~= bits@ + r);
                    bits.push(b);
                },
                None => {
                    assert(bits@ + r =~= bits@);
                    return bits;
                },
            }
        }
    }

    /// Reads every token left, up to the end marker or the end of the bits.
    pub fn collect_tokens(&mut self) -> (toks: Vec<Token>)
        ensures
            final(self).source() == old(self).source(),
            toks@ == decode_all(old(self).remaining()),
            final(self).remaining() == Seq::<bool>::empty(),
    {
        let mut toks: Vec<Token> = Vec::new();
        let ghost start = self.remaining();
        loop
            invariant
                self.source() == old(self).source(),
                start == old(self).remaining(),
                decode_all(start) == toks@ + decode_all(self.remaining()),
            ensures
                self.source() == old(self).source(),
                toks@ == decode_all(start),
                self.remaining() == Seq::<bool>::empty(),
            decreases self.remaining().len(),
        {
            let ghost r = self.remaining();
            match self.next() {
                Some(t) => {
                    proof {
                        law_next_yields_decode_all(r);
                    }
                    assert(toks@.push(t) + decode_all(self.remaining()) =~= toks@ + (seq![t]
                        + decode_all(self.remaining())));
                    toks.push(t);
                },
                None => {
                    assert(toks@ + Seq::<Token>::empty() =~= toks@);
                    return toks;
                },
            }
        }
    }
}

impl<'a> Clone for BitLexer<'a> {
    fn clone(&self) -> (copy: Self)
        ensures
            copy == *self,
    {
        proof {
            use_type_invariant(self);
        }
        BitLexer { src: self.src, byte_offset: self.byte_offset, bit_offset: self.bit_offset }
    }
}

} // verus!
