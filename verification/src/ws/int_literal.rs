//! Integer literals: their bit patterns as Whitespace writes them, and their
//! values.
use vstd::prelude::*;

use compact_str::CompactString;

use crate::ws::bits::{
    bin_val, binary, bitvec_get, bitvec_len, bitvec_new, bitvec_push, bits_of, kbits, zeros,
    lemma_bin_val_append_kbits, lemma_bin_val_binary, lemma_binary_canonical, max_bits, pow2, Bits,
};
use crate::ws::integer::{
    decimal_chars, digit_char, digits_value, le_from_digits, lemma_binary_len, lemma_digits_value_bound, signed,
    signed_decimal, BigInt,
};
use crate::ws::text::{
    compact_as_bytes, compact_bytes, compact_to_string, decode_utf8_at, string_from_chars,
};

verus! {

/// The sign a literal was written with.
#[derive(Clone, Copy, Debug, PartialEq, Eq, Structural, Hash)]
pub enum Sign {
    Pos,
    Neg,
    Empty,
}

/// Why a literal was rejected.
#[derive(Clone, Copy, Debug, PartialEq, Eq, Structural, Hash)]
pub enum ParseError {
    InvalidRadix,
    InvalidDigit { ch: char, offset: usize },
    IllegalUnderscore { offset: usize },
    NoDigits,
}

/// The numeric value of an ASCII character as a digit: `0-9A-Z` case
/// insensitively for radices up to 36, `0-9A-Za-z` case sensitively above.
/// 255 for any other byte.
pub open spec fn digit_value(c: u8, radix: u32) -> u8 {
    if 48 <= c <= 57 {
        (c - 48) as u8
    } else if 65 <= c <= 90 {
        (c - 55) as u8
    } else if 97 <= c <= 122 {
        if radix <= 36 {
            (c - 87) as u8
        } else {
            (c - 61) as u8
        }
    } else {
        255
    }
}

/// The sign at the front of `b` and where the rest starts.
pub open spec fn sign_prefix(b: Seq<u8>) -> (Sign, int) {
    if b.len() > 0 && b[0] == 43 {
        (Sign::Pos, 1)
    } else if b.len() > 0 && b[0] == 45 {
        (Sign::Neg, 1)
    } else {
        (Sign::Empty, 0)
    }
}

/// Position `i` of the digit text `d` is at fault: an underscore that does not
/// stand alone between two digits, or a character that is no digit below
/// `radix`.
pub open spec fn bad_at(d: Seq<u8>, radix: u32, i: int) -> bool {
    if d[i] == 95 {
        i == 0 || i == d.len() - 1 || d[i - 1] == 95
    } else {
        digit_value(d[i], radix) >= radix
    }
}

/// The first position from `i` on at which `d` is at fault.
pub open spec fn first_bad(d: Seq<u8>, radix: u32, i: int) -> Option<int>
    decreases d.len() - i,
{
    if i < 0 || i >= d.len() {
        None
    } else if bad_at(d, radix, i) {
        Some(i)
    } else {
        first_bad(d, radix, i + 1)
    }
}

/// The digit values written in `d`, underscores left out.
pub open spec fn digit_seq(d: Seq<u8>, radix: u32) -> Seq<u8>
    decreases d.len(),
{
    if d.len() == 0 {
        Seq::empty()
    } else if d.last() == 95 {
        digit_seq(d.drop_last(), radix)
    } else {
        digit_seq(d.drop_last(), radix).push(digit_value(d.last(), radix))
    }
}

/// Bits per digit for a radix that is a power of two; 0 for any other radix.
pub open spec fn radix_bits(radix: u32) -> nat {
    if radix == 2 {
        1
    } else if radix == 4 {
        2
    } else if radix == 8 {
        3
    } else if radix == 16 {
        4
    } else if radix == 32 {
        5
    } else {
        0
    }
}

/// Each digit written with `k` bits.
pub open spec fn concat_kbits(ds: Seq<u8>, k: nat) -> Seq<bool>
    decreases ds.len(),
{
    if ds.len() == 0 {
        Seq::empty()
    } else {
        concat_kbits(ds.drop_last(), k) + kbits(ds.last() as nat, k)
    }
}

/// The bit pattern of a literal with sign `sign` and digits `ds`: a sign bit
/// (one for minus) and then, for a radix that is a power of two, every digit
/// with its full width of bits, so that leading zeros are kept; for another
/// radix, the shortest binary numeral of the value, or one zero bit for zero.
/// No digits at all give the sign bit alone, or nothing when no sign was
/// written.
pub open spec fn literal_bits(sign: Sign, ds: Seq<u8>, radix: u32) -> Seq<bool> {
    let neg = sign == Sign::Neg;
    if ds.len() == 0 {
        if sign == Sign::Empty {
            Seq::empty()
        } else {
            seq![neg]
        }
    } else if radix_bits(radix) > 0 {
        seq![neg] + concat_kbits(ds, radix_bits(radix))
    } else if digits_value(ds, radix as nat) == 0 {
        seq![neg, false]
    } else {
        seq![neg] + binary(digits_value(ds, radix as nat))
    }
}

/// The character whose UTF-8 encoding starts at `at` in `b`.
pub open spec fn char_at(b: Seq<u8>, at: int) -> char {
    vstd::utf8::decode_first_scalar(b.subrange(at, b.len() as int)) as char
}

/// Text that is valid UTF-8 stays valid after an ASCII prefix.
pub(crate) proof fn lemma_valid_utf8_skip_ascii(b: Seq<u8>, i: int)
    requires
        vstd::utf8::valid_utf8(b),
        0 <= i <= b.len(),
        forall|j: int| 0 <= j < i ==> b[j] < 128,
    ensures
        vstd::utf8::valid_utf8(b.subrange(i, b.len() as int)),
    decreases i,
{
    if i == 0 {
        assert(b.subrange(0, b.len() as int) =~= b);
    } else {
        let t = b.subrange(1, b.len() as int);
        assert(vstd::utf8::pop_first_scalar(b) =~= t);
        assert forall|j: int| 0 <= j < i - 1 implies t[j] < 128 by {
            assert(t[j] == b[j + 1]);
        }
        lemma_valid_utf8_skip_ascii(t, i - 1);
        assert(t.subrange(i - 1, t.len() as int) =~= b.subrange(i, b.len() as int));
    }
}

/// The outcome of reading the digits of `b` from `offset` on in base `radix`
/// after the sign `sign`: the bit pattern and the value, or the first fault.
pub open spec fn spec_parse_digits(b: Seq<u8>, offset: int, sign: Sign, radix: u32) -> Result<
    (Seq<bool>, int),
    ParseError,
> {
    if radix < 2 || radix > 62 {
        Err(ParseError::InvalidRadix)
    } else {
        let d = b.subrange(offset, b.len() as int);
        match first_bad(d, radix, 0) {
            Some(i) => if d[i] == 95 {
                Err(ParseError::IllegalUnderscore { offset: (offset + i) as usize })
            } else {
                Err(
                    ParseError::InvalidDigit {
                        ch: char_at(b, offset + i),
                        offset: (offset + i) as usize,
                    },
                )
            },
            None => {
                let ds = digit_seq(d, radix);
                Ok(
                    (
                        literal_bits(sign, ds, radix),
                        signed(sign == Sign::Neg, digits_value(ds, radix as nat)),
                    ),
                )
            },
        }
    }
}

/// The radix an Erlang-style literal names after its sign (at `o`) and where
/// its digits start: `b#`, `o#`, `x#` (either case), a single digit `2`-`9`
/// followed by `#`, or two digits from `10` to `69` followed by `#`; base 10
/// with no prefix. A `#` in the place of such a prefix, after anything else,
/// names no radix. Nothing at all after the sign is no digits.
pub open spec fn erlang_prefix(b: Seq<u8>, o: int) -> Result<(u32, int), ParseError> {
    if b.len() >= o + 2 && b[o + 1] == 35 {
        let r = b[o];
        if r == 98 || r == 66 {
            Ok((2, o + 2))
        } else if r == 111 || r == 79 {
            Ok((8, o + 2))
        } else if r == 120 || r == 88 {
            Ok((16, o + 2))
        } else if 50 <= r <= 57 {
            Ok(((r - 48) as u32, o + 2))
        } else {
            Err(ParseError::InvalidRadix)
        }
    } else if b.len() >= o + 3 && b[o + 2] == 35 {
        let r0 = b[o];
        let r1 = b[o + 1];
        if 49 <= r0 <= 54 && 48 <= r1 <= 57 {
            Ok((((r0 - 48) * 10 + r1 - 48) as u32, o + 3))
        } else {
            Err(ParseError::InvalidRadix)
        }
    } else if b.len() == o {
        Err(ParseError::NoDigits)
    } else {
        Ok((10, o))
    }
}

/// The outcome of reading `b` as an Erlang-style literal. A `#` met where a
/// digit should be means the radix prefix was malformed.
pub open spec fn spec_parse_erlang(b: Seq<u8>) -> Result<(Seq<bool>, int), ParseError> {
    let (sign, o) = sign_prefix(b);
    match erlang_prefix(b, o) {
        Err(e) => Err(e),
        Ok((radix, start)) => {
            let r = spec_parse_digits(b, start, sign, radix);
            if r matches Err(ParseError::InvalidDigit { ch, .. }) && ch == '#' {
                Err(ParseError::InvalidRadix)
            } else {
                r
            }
        },
    }
}

/// The radix a C-style literal names after its sign (at `o`) and where its
/// digits start: `0b`, `0o`, `0x` (either case), a bare leading `0` for
/// octal, else decimal.
pub open spec fn c_prefix(b: Seq<u8>, o: int) -> (u32, int) {
    if b.len() >= o + 2 && b[o] == 48 {
        let r = b[o + 1];
        if r == 98 || r == 66 {
            (2, o + 2)
        } else if r == 111 || r == 79 {
            (8, o + 2)
        } else if r == 120 || r == 88 {
            (16, o + 2)
        } else {
            (8, o + 1)
        }
    } else {
        (10, o)
    }
}

/// The outcome of reading `b` as a C-style literal.
pub open spec fn spec_parse_c(b: Seq<u8>) -> Result<(Seq<bool>, int), ParseError> {
    let (sign, o) = sign_prefix(b);
    let (radix, start) = c_prefix(b, o);
    if start == b.len() {
        Err(ParseError::NoDigits)
    } else {
        spec_parse_digits(b, start, sign, radix)
    }
}

/// The outcome of reading `b` as a signed literal in base `radix`.
pub open spec fn spec_parse_radix(b: Seq<u8>, radix: u32) -> Result<(Seq<bool>, int), ParseError> {
    let (sign, o) = sign_prefix(b);
    if o == b.len() {
        Err(ParseError::NoDigits)
    } else {
        spec_parse_digits(b, o, sign, radix)
    }
}

/// `r` is the outcome `expected` of reading the text `s`: on success a literal
/// with that bit pattern and value, which keeps `s`.
pub open spec fn parsed_as(
    r: Result<IntLiteral, ParseError>,
    expected: Result<(Seq<bool>, int), ParseError>,
    s: CompactString,
) -> bool {
    match r {
        Ok(lit) => {
            &&& expected == Ok::<(Seq<bool>, int), ParseError>((lit.bit_seq(), lit.value()))
            &&& lit.source() == Some(s)
        },
        Err(e) => expected == Err::<(Seq<bool>, int), ParseError>(e),
    }
}

/// The longest text the parsers take: the bit pattern must fit a `BitVec`.
pub open spec fn max_text_len() -> int {
    usize::MAX as int / 64
}

/// The value the bit pattern `bits` denotes: a sign bit, then the magnitude
/// most significant bit first. The empty pattern is zero.
pub open spec fn bits_to_int(bits: Seq<bool>) -> int {
    if bits.len() == 0 {
        0
    } else {
        signed(bits[0], bin_val(bits.drop_first()))
    }
}

/// The sign of the bit pattern `bits`.
pub open spec fn bits_sign(bits: Seq<bool>) -> Sign {
    if bits.len() == 0 {
        Sign::Empty
    } else if bits[0] {
        Sign::Neg
    } else {
        Sign::Pos
    }
}

fn digit_of(c: u8, radix: u32) -> (d: u8)
    ensures
        d == digit_value(c, radix),
{
    if 48 <= c && c <= 57 {
        c - 48
    } else if 65 <= c && c <= 90 {
        c - 55
    } else if 97 <= c && c <= 122 {
        if radix <= 36 {
            c - 87
        } else {
            c - 61
        }
    } else {
        255
    }
}

fn radix_bits_of(radix: u32) -> (k: u8)
    ensures
        k == radix_bits(radix),
{
    if radix == 2 {
        1
    } else if radix == 4 {
        2
    } else if radix == 8 {
        3
    } else if radix == 16 {
        4
    } else if radix == 32 {
        5
    } else {
        0
    }
}

/// Appends the `k`-bit numeral of `v`.
fn push_kbits(bits: &mut Bits, v: u8, k: u8)
    requires
        bits_of(*old(bits)).len() + k <= max_bits(),
    ensures
        bits_of(*final(bits)) == bits_of(*old(bits)) + kbits(v as nat, k as nat),
    decreases k,
{
    if k > 0 {
        push_kbits(bits, v / 2, k - 1);
        proof {
            lemma_kbits_len((v / 2) as nat, (k - 1) as nat);
        }
        bitvec_push(bits, v % 2 == 1);
        assert(bits_of(*old(bits)) + kbits(v as nat, k as nat) =~= (bits_of(*old(bits)) + kbits(
            (v / 2) as nat,
            (k - 1) as nat,
        )).push(v % 2 == 1));
    } else {
        assert(bits_of(*old(bits)) + kbits(v as nat, 0) =~= bits_of(*old(bits)));
    }
}

proof fn lemma_concat_kbits_len(ds: Seq<u8>, k: nat)
    ensures
        concat_kbits(ds, k).len() == ds.len() * k,
    decreases ds.len(),
{
    if ds.len() > 0 {
        lemma_concat_kbits_len(ds.drop_last(), k);
        lemma_kbits_len(ds.last() as nat, k);
        assert((ds.len() - 1) * k + k == ds.len() * k) by (nonlinear_arith);
    }
}

proof fn lemma_kbits_len(v: nat, k: nat)
    ensures
        kbits(v, k).len() == k,
    decreases k,
{
    if k > 0 {
        lemma_kbits_len(v / 2, (k - 1) as nat);
    }
}

/// The bit pattern of a zero written with the sign `sign` and `n_zeros` zero
/// bits: nothing when there is neither, else a sign bit and the zero bits.
fn signed_bits_from_zero(sign: Sign, n_zeros: usize) -> (bits: Bits)
    requires
        n_zeros + 1 <= max_bits(),
    ensures
        bits_of(bits) == (if n_zeros == 0 && sign == Sign::Empty {
            Seq::<bool>::empty()
        } else {
            seq![sign == Sign::Neg] + zeros(n_zeros as nat)
        }),
{
    let mut bits = bitvec_new();
    let neg = match sign {
        Sign::Neg => true,
        _ => false,
    };
    let empty = match sign {
        Sign::Empty => true,
        _ => false,
    };
    if n_zeros == 0 && empty {
        return bits;
    }
    bitvec_push(&mut bits, neg);
    let mut i: usize = 0;
    while i < n_zeros
        invariant
            i <= n_zeros,
            n_zeros + 1 <= max_bits(),
            bits_of(bits) =~= seq![neg] + zeros(i as nat),
        decreases n_zeros - i,
    {
        bitvec_push(&mut bits, false);
        i = i + 1;
    }
    bits
}

/// A sign bit and then the bits of `magnitude`.
fn signed_bits_from_magnitude(neg: bool, magnitude: &Vec<bool>) -> (bits: Bits)
    requires
        magnitude@.len() + 1 <= max_bits(),
    ensures
        bits_of(bits) == seq![neg] + magnitude@,
{
    let mut bits = bitvec_new();
    bitvec_push(&mut bits, neg);
    let mut j: usize = 0;
    while j < magnitude.len()
        invariant
            j <= magnitude@.len(),
            magnitude@.len() + 1 <= max_bits(),
            bits_of(bits) =~= seq![neg] + magnitude@.take(j as int),
        decreases magnitude@.len() - j,
    {
        bitvec_push(&mut bits, magnitude[j]);
        j = j + 1;
    }
    assert(magnitude@.take(magnitude@.len() as int) =~= magnitude@);
    bits
}

/// A sign bit and then every digit written with `k` bits.
fn signed_bits_from_digits(neg: bool, digits: &Vec<u8>, k: u8) -> (bits: Bits)
    requires
        1 <= k <= 5,
        5 * digits@.len() + 1 <= max_bits(),
    ensures
        bits_of(bits) == seq![neg] + concat_kbits(digits@, k as nat),
{
    let mut bits = bitvec_new();
    bitvec_push(&mut bits, neg);
    let mut j: usize = 0;
    assert(digits@.take(0) =~= Seq::<u8>::empty());
    assert(bits_of(bits) =~= seq![neg] + concat_kbits(digits@.take(0), k as nat));
    while j < digits.len()
        invariant
            j <= digits@.len(),
            5 * digits@.len() + 1 <= max_bits(),
            1 <= k <= 5,
            bits_of(bits) == seq![neg] + concat_kbits(digits@.take(j as int), k as nat),
        decreases digits@.len() - j,
    {
        proof {
            lemma_concat_kbits_len(digits@.take(j as int), k as nat);
            assert(j * k + k <= 5 * digits@.len()) by (nonlinear_arith)
                requires
                    j < digits@.len(),
                    k <= 5,
            ;
        }
        push_kbits(&mut bits, digits[j], k);
        assert(digits@.take(j + 1).drop_last() =~= digits@.take(j as int));
        assert(bits_of(bits) =~= seq![neg] + concat_kbits(digits@.take(j + 1), k as nat));
        j = j + 1;
    }
    assert(digits@.take(digits@.len() as int) =~= digits@);
    bits
}

/// The sign at the front of `b` and where the rest starts.
fn parse_sign(b: &[u8]) -> (r: (Sign, usize))
    ensures
        r.0 == sign_prefix(b@).0,
        r.1 == sign_prefix(b@).1,
{
    if b.len() > 0 && b[0] == 43 {
        (Sign::Pos, 1)
    } else if b.len() > 0 && b[0] == 45 {
        (Sign::Neg, 1)
    } else {
        (Sign::Empty, 0)
    }
}

/// How a literal without source text is written: in decimal when its second
/// bit is one or it has exactly two bits, else as a sign (`-` for a one sign
/// bit, `+` when the sign bit stands alone) and the binary digits after
/// `b#`.
pub open spec fn display_chars(bits: Seq<bool>, value: int) -> Seq<char> {
    if (bits.len() > 1 && bits[1]) || bits.len() == 2 {
        signed_decimal(value)
    } else {
        let sign = if bits.len() > 0 && bits[0] {
            seq!['-']
        } else if bits.len() == 1 {
            seq!['+']
        } else {
            Seq::<char>::empty()
        };
        sign + seq!['b', '#'] + bit_chars(bits.drop_first())
    }
}

/// Bits written as the characters `0` and `1`.
pub open spec fn bit_chars(bits: Seq<bool>) -> Seq<char> {
    bits.map_values(
        |b: bool|
            if b {
                '1'
            } else {
                '0'
            },
    )
}

/// Reading a bit pattern as an integer.
pub trait ToInteger {
    /// The bits read.
    spec fn to_bit_seq(&self) -> Seq<bool>;

    /// The value: sign bit first, then the magnitude.
    fn to_int(&self) -> (i: BigInt)
        ensures
            i@ == bits_to_int(self.to_bit_seq()),
    ;

    /// The value of all the bits as an unsigned numeral.
    fn to_uint(&self) -> (i: BigInt)
        ensures
            i@ == bin_val(self.to_bit_seq()) as int,
    ;

    /// The unsigned value, when a leading one bit fixes the numeral's length.
    fn to_uint_unambiguous(&self) -> (i: Option<BigInt>)
        ensures
            match i {
                Some(v) => {
                    &&& self.to_bit_seq().len() > 0
                    &&& self.to_bit_seq()[0]
                    &&& v@ == bin_val(self.to_bit_seq()) as int
                },
                None => !(self.to_bit_seq().len() > 0 && self.to_bit_seq()[0]),
            },
    ;

    /// The sign bit, if any.
    fn sign(&self) -> (s: Sign)
        ensures
            s == bits_sign(self.to_bit_seq()),
    ;
}

impl ToInteger for Bits {
    open spec fn to_bit_seq(&self) -> Seq<bool> {
        bits_of(*self)
    }

    fn to_int(&self) -> (i: BigInt) {
        if bitvec_len(self) == 0 {
            BigInt::zero()
        } else {
            let neg = bitvec_get(self, 0);
            let i = BigInt::from_msb(neg, self, 1);
            assert(bits_of(*self).skip(1) =~= bits_of(*self).drop_first());
            i
        }
    }

    fn to_uint(&self) -> (i: BigInt) {
        assert(bits_of(*self).skip(0) =~= bits_of(*self));
        BigInt::from_msb(false, self, 0)
    }

    fn to_uint_unambiguous(&self) -> (i: Option<BigInt>) {
        if bitvec_len(self) > 0 && bitvec_get(self, 0) {
            Some(self.to_uint())
        } else {
            None
        }
    }

    fn sign(&self) -> (s: Sign) {
        if bitvec_len(self) == 0 {
            Sign::Empty
        } else if bitvec_get(self, 0) {
            Sign::Neg
        } else {
            Sign::Pos
        }
    }
}

pub(crate) proof fn lemma_first_bad_none(d: Seq<u8>, radix: u32, j: int)
    requires
        0 <= j,
        first_bad(d, radix, j) is None,
    ensures
        forall|i: int| j <= i < d.len() ==> !bad_at(d, radix, i),
    decreases d.len() - j,
{
    if j < d.len() {
        lemma_first_bad_none(d, radix, j + 1);
    }
}

proof fn lemma_digit_seq_below(d: Seq<u8>, radix: u32)
    requires
        forall|i: int| 0 <= i < d.len() && d[i] != 95 ==> digit_value(d[i], radix) < radix,
    ensures
        forall|j: int|
            0 <= j < digit_seq(d, radix).len() ==> #[trigger] digit_seq(d, radix)[j] < radix,
    decreases d.len(),
{
    if d.len() > 0 {
        let t = d.drop_last();
        assert forall|i: int| 0 <= i < t.len() && t[i] != 95 implies digit_value(t[i], radix)
            < radix by {
            assert(t[i] == d[i]);
        }
        lemma_digit_seq_below(t, radix);
        let st = digit_seq(t, radix);
        if d.last() != 95 {
            assert(digit_value(d[d.len() - 1], radix) < radix);
            assert forall|j: int| 0 <= j < digit_seq(d, radix).len() implies #[trigger] digit_seq(
                d,
                radix,
            )[j] < radix by {
                if j < st.len() {
                    assert(digit_seq(d, radix)[j] == st[j]);
                }
            }
        }
    }
}

proof fn lemma_concat_kbits_value(ds: Seq<u8>, k: nat)
    requires
        forall|i: int| 0 <= i < ds.len() ==> ds[i] < pow2(k),
    ensures
        bin_val(concat_kbits(ds, k)) == digits_value(ds, pow2(k)),
    decreases ds.len(),
{
    if ds.len() == 0 {
        assert(concat_kbits(ds, k) =~= Seq::<bool>::empty());
    } else {
        let t = ds.drop_last();
        assert forall|i: int| 0 <= i < t.len() implies t[i] < pow2(k) by {
            assert(t[i] == ds[i]);
        }
        lemma_concat_kbits_value(t, k);
        lemma_bin_val_append_kbits(concat_kbits(t, k), ds.last() as nat, k);
    }
}

/// The bit pattern of a literal denotes its value.
pub proof fn lemma_literal_bits_value(sign: Sign, ds: Seq<u8>, radix: u32)
    requires
        2 <= radix <= 62,
        forall|i: int| 0 <= i < ds.len() ==> ds[i] < radix,
    ensures
        bits_to_int(literal_bits(sign, ds, radix)) == signed(
            sign == Sign::Neg,
            digits_value(ds, radix as nat),
        ),
{
    let neg = sign == Sign::Neg;
    let v = digits_value(ds, radix as nat);
    let bits = literal_bits(sign, ds, radix);
    if ds.len() == 0 {
        if sign != Sign::Empty {
            assert(bits.drop_first() =~= Seq::<bool>::empty());
        }
    } else if radix_bits(radix) > 0 {
        let k = radix_bits(radix);
        reveal_with_fuel(pow2, 6);
        assert(pow2(k) == radix);
        lemma_concat_kbits_value(ds, k);
        assert(bits.drop_first() =~= concat_kbits(ds, k));
    } else if v == 0 {
        assert(bits.drop_first() =~= seq![false]);
        assert(bin_val(seq![false]) == 2 * bin_val(seq![false].drop_last()));
    } else {
        assert(bits.drop_first() =~= binary(v));
        lemma_bin_val_binary(v);
    }
}

/// Whatever the digit text, a literal read from it has a bit pattern that
/// denotes the literal's value.
pub proof fn law_digits_bits_denote_value(b: Seq<u8>, offset: int, sign: Sign, radix: u32)
    ensures
        spec_parse_digits(b, offset, sign, radix) matches Ok((bits, v)) ==> bits_to_int(bits)
            == v,
{
    if 2 <= radix <= 62 {
        let d = b.subrange(offset, b.len() as int);
        if first_bad(d, radix, 0) is None {
            lemma_first_bad_none(d, radix, 0);
            assert forall|i: int| 0 <= i < d.len() && d[i] != 95 implies digit_value(d[i], radix)
                < radix by {
                assert(!bad_at(d, radix, i));
            }
            lemma_digit_seq_below(d, radix);
            lemma_literal_bits_value(sign, digit_seq(d, radix), radix);
        }
    }
}

/// Each parser yields literals whose bit pattern denotes their value.
pub proof fn law_parsed_bits_denote_value(b: Seq<u8>, radix: u32)
    ensures
        spec_parse_radix(b, radix) matches Ok((bits, v)) ==> bits_to_int(bits) == v,
        spec_parse_erlang(b) matches Ok((bits, v)) ==> bits_to_int(bits) == v,
        spec_parse_c(b) matches Ok((bits, v)) ==> bits_to_int(bits) == v,
{
    let (sign, o) = sign_prefix(b);
    law_digits_bits_denote_value(b, o, sign, radix);
    if let Ok((r, start)) = erlang_prefix(b, o) {
        law_digits_bits_denote_value(b, start, sign, r);
    }
    let (r, start) = c_prefix(b, o);
    law_digits_bits_denote_value(b, start, sign, r);
}

/// The bytes of text made of ASCII characters.
pub open spec fn text_bytes(cs: Seq<char>) -> Seq<u8> {
    cs.map_values(|c: char| c as u8)
}

pub(crate) proof fn lemma_first_bad_all_good(d: Seq<u8>, radix: u32, j: int)
    requires
        0 <= j,
        forall|i: int| j <= i < d.len() ==> !bad_at(d, radix, i),
    ensures
        first_bad(d, radix, j) is None,
    decreases d.len() - j,
{
    if j < d.len() {
        lemma_first_bad_all_good(d, radix, j + 1);
    }
}

proof fn lemma_digit_char_byte(x: nat)
    requires
        x < 10,
    ensures
        digit_char(x) as u8 == 48 + x,
{
}

/// The bytes of a decimal numeral are decimal digits and read back as its
/// value.
proof fn lemma_decimal_bytes(v: nat)
    ensures
        text_bytes(decimal_chars(v)).len() >= 1,
        forall|i: int|
            0 <= i < text_bytes(decimal_chars(v)).len() ==> 48 <= #[trigger] text_bytes(
                decimal_chars(v),
            )[i] <= 57,
        digits_value(digit_seq(text_bytes(decimal_chars(v)), 10), 10) == v,
    decreases v,
{
    let d = text_bytes(decimal_chars(v));
    if v < 10 {
        lemma_digit_char_byte(v);
        assert(d =~= seq![(48 + v) as u8]);
        assert(d.drop_last() =~= Seq::<u8>::empty());
        assert(digit_seq(d.drop_last(), 10) =~= Seq::<u8>::empty());
        assert(digit_value(d.last(), 10) == v as u8);
        assert(digit_seq(d, 10) =~= seq![v as u8]);
        assert(seq![v as u8].drop_last() =~= Seq::<u8>::empty());
        assert(digits_value(Seq::<u8>::empty(), 10) == 0);
        assert(digits_value(seq![v as u8], 10) == v);
    } else {
        lemma_decimal_bytes(v / 10);
        let p = text_bytes(decimal_chars(v / 10));
        lemma_digit_char_byte(v % 10);
        assert(d =~= p.push((48 + v % 10) as u8));
        assert(d.drop_last() =~= p);
        let ds = digit_seq(p, 10);
        assert(digit_value(d.last(), 10) == (v % 10) as u8);
        assert(digit_seq(d, 10) =~= ds.push((v % 10) as u8));
        assert(ds.push((v % 10) as u8).drop_last() =~= ds);
        assert(digits_value(ds.push((v % 10) as u8), 10) == digits_value(ds, 10) * 10 + v % 10);
        assert((v / 10) * 10 + v % 10 == v);
        assert forall|i: int| 0 <= i < d.len() implies 48 <= #[trigger] d[i] <= 57 by {
            if i < p.len() {
                assert(d[i] == p[i]);
            }
        }
    }
}

/// The digit values of bits written as `0` and `1`.
pub open spec fn bit_digits(bits: Seq<bool>) -> Seq<u8> {
    bits.map_values(
        |b: bool|
            if b {
                1u8
            } else {
                0u8
            },
    )
}

proof fn lemma_bit_chars_bytes(m: Seq<bool>)
    ensures
        text_bytes(bit_chars(m)).len() == m.len(),
        forall|i: int|
            0 <= i < m.len() ==> (#[trigger] text_bytes(bit_chars(m))[i] == 48
                || text_bytes(bit_chars(m))[i] == 49),
        digit_seq(text_bytes(bit_chars(m)), 2) == bit_digits(m),
        concat_kbits(bit_digits(m), 1) == m,
    decreases m.len(),
{
    let d = text_bytes(bit_chars(m));
    if m.len() == 0 {
        assert(d =~= Seq::<u8>::empty());
        assert(bit_digits(m) =~= Seq::<u8>::empty());
        assert(concat_kbits(bit_digits(m), 1) =~= m);
    } else {
        let t = m.drop_last();
        lemma_bit_chars_bytes(t);
        assert(d.drop_last() =~= text_bytes(bit_chars(t)));
        assert(bit_digits(m).drop_last() =~= bit_digits(t));
        let x: nat = if m.last() {
            1
        } else {
            0
        };
        assert(kbits(x, 1) =~= seq![m.last()]) by {
            assert(kbits(x / 2, 0) =~= Seq::<bool>::empty());
        }
        assert(concat_kbits(bit_digits(m), 1) =~= concat_kbits(bit_digits(t), 1) + kbits(x, 1));
        assert(m =~= t.push(m.last()));
        assert(digit_seq(d, 2) =~= digit_seq(text_bytes(bit_chars(t)), 2).push(
            digit_value(d.last(), 2),
        ));
    }
}

/// What `to_string` writes for a literal without source text reads back as an
/// Erlang-style literal with the same bit pattern and value — but for the
/// pattern `1 0` (a negative zero written in two bits), which is written `0`
/// and reads back as `0 0`.
pub proof fn law_display_reads_back(bits: Seq<bool>)
    requires
        bits.len() >= 1,
        bits != seq![true, false],
    ensures
        spec_parse_erlang(text_bytes(display_chars(bits, bits_to_int(bits)))) == Ok::<
            (Seq<bool>, int),
            ParseError,
        >((bits, bits_to_int(bits))),
{
    let m = bits.drop_first();
    let value = bits_to_int(bits);
    let b = text_bytes(display_chars(bits, value));
    assert(bits =~= seq![bits[0]] + m);
    if (bits.len() > 1 && bits[1]) || bits.len() == 2 {
        if bits.len() > 1 && bits[1] {
            let v = bin_val(m);
            lemma_binary_canonical(m);
            lemma_bin_val_binary(v);
            assert(v != 0);
            lemma_decimal_bytes(v);
            let d = text_bytes(decimal_chars(v));
            let o: int = if bits[0] {
                1
            } else {
                0
            };
            if bits[0] {
                assert(b =~= seq![45u8] + d);
            } else {
                assert(b =~= d);
            }
            assert(b.subrange(o, b.len() as int) =~= d);
            assert forall|i: int| 0 <= i < d.len() implies !bad_at(d, 10, i) by {
                assert(48 <= d[i] <= 57);
            }
            lemma_first_bad_all_good(d, 10, 0);
            let ds = digit_seq(d, 10);
            if ds.len() == 0 {
                assert(digits_value(ds, 10) == 0);
            }
            assert(literal_bits(sign_prefix(b).0, ds, 10) =~= bits);
        } else {
            if bits[0] {
                assert(bits =~= seq![true, false]);
            }
            assert(bits =~= seq![false, false]);
            assert(m =~= seq![false]);
            assert(bin_val(m) == 2 * bin_val(m.drop_last()));
            assert(value == 0);
            lemma_decimal_bytes(0);
            let d = text_bytes(decimal_chars(0));
            assert(b =~= d);
            assert(d =~= seq![48u8]);
            assert(b.subrange(0, 1) =~= d);
            assert(!bad_at(d, 10, 0));
            lemma_first_bad_all_good(d, 10, 0);
            assert(digit_seq(d, 10) =~= seq![0u8]) by {
                assert(d.drop_last() =~= Seq::<u8>::empty());
                assert(digit_seq(d.drop_last(), 10) =~= Seq::<u8>::empty());
            }
            assert(seq![0u8].drop_last() =~= Seq::<u8>::empty());
            assert(literal_bits(Sign::Empty, seq![0u8], 10) =~= bits);
        }
    } else {
        let sc: Seq<char> = if bits[0] {
            seq!['-']
        } else if bits.len() == 1 {
            seq!['+']
        } else {
            Seq::<char>::empty()
        };
        let d = text_bytes(bit_chars(m));
        lemma_bit_chars_bytes(m);
        assert(b =~= text_bytes(sc) + seq![98u8, 35u8] + d);
        let o = sc.len() as int;
        assert(b.subrange(o + 2, b.len() as int) =~= d);
        assert forall|i: int| 0 <= i < d.len() implies !bad_at(d, 2, i) by {
            assert(d[i] == 48 || d[i] == 49);
        }
        lemma_first_bad_all_good(d, 2, 0);
        let ds = bit_digits(m);
        assert forall|i: int| 0 <= i < ds.len() implies ds[i] < pow2(1) by {
            reveal_with_fuel(pow2, 2);
        }
        lemma_concat_kbits_value(ds, 1);
        reveal_with_fuel(pow2, 2);
        assert(literal_bits(sign_prefix(b).0, ds, 2) =~= bits);
    }
}

/// An Erlang-style binary literal for the bit pattern `bits`: `b#` alone for
/// no bits, else a sign for the first bit (`-` for one, `+` for zero), `b#`
/// and the other bits as binary digits.
pub open spec fn binary_text(bits: Seq<bool>) -> Seq<char> {
    if bits.len() == 0 {
        seq!['b', '#']
    } else {
        (if bits[0] {
            seq!['-']
        } else {
            seq!['+']
        }) + seq!['b', '#'] + bit_chars(bits.drop_first())
    }
}

/// Every bit pattern can be written as an Erlang-style literal (the digits
/// may be empty for this): its binary text reads back as exactly that
/// pattern, with the value the pattern denotes.
pub proof fn law_every_pattern_has_a_literal(bits: Seq<bool>)
    ensures
        spec_parse_erlang(text_bytes(binary_text(bits))) == Ok::<(Seq<bool>, int), ParseError>(
            (bits, bits_to_int(bits)),
        ),
{
    let b = text_bytes(binary_text(bits));
    if bits.len() == 0 {
        assert(b =~= seq![98u8, 35u8]);
        assert(b.subrange(2, 2) =~= Seq::<u8>::empty());
        assert(digit_seq(Seq::<u8>::empty(), 2) =~= Seq::<u8>::empty());
        assert(bits =~= Seq::<bool>::empty());
        assert(digits_value(Seq::<u8>::empty(), 2) == 0);

    } else {
        let m = bits.drop_first();
        assert(bits =~= seq![bits[0]] + m);
        let sc: Seq<char> = if bits[0] {
            seq!['-']
        } else {
            seq!['+']
        };
        let d = text_bytes(bit_chars(m));
        lemma_bit_chars_bytes(m);
        assert(b =~= text_bytes(sc) + seq![98u8, 35u8] + d);
        assert(b.subrange(3, b.len() as int) =~= d);
        assert forall|i: int| 0 <= i < d.len() implies !bad_at(d, 2, i) by {
            assert(d[i] == 48 || d[i] == 49);
        }
        lemma_first_bad_all_good(d, 2, 0);
        let ds = bit_digits(m);
        assert forall|i: int| 0 <= i < ds.len() implies ds[i] < pow2(1) by {
            reveal_with_fuel(pow2, 2);
        }
        lemma_concat_kbits_value(ds, 1);
        reveal_with_fuel(pow2, 2);
        assert(literal_bits(sign_prefix(b).0, ds, 2) =~= bits);
    }
}

/// An integer literal: its bit pattern (a sign bit, then the digits' bits,
/// leading zeros kept), the text it was read from, and its value.
#[derive(Clone, Debug, PartialEq, Eq, Hash)]
pub struct IntLiteral {
    bits: Bits,
    string: Option<CompactString>,
    num: BigInt,
}

impl IntLiteral {
    /// The bit pattern.
    pub closed spec fn bit_seq(self) -> Seq<bool> {
        bits_of(self.bits)
    }

    /// The value.
    pub closed spec fn value(self) -> int {
        self.num@
    }

    /// The text the literal was read from, if it was read from one.
    pub closed spec fn source(self) -> Option<CompactString> {
        self.string
    }

    /// A literal with the bit pattern `bits` and no source text; its value is
    /// what the bits denote.
    pub fn from_bits(bits: Bits) -> (lit: Self)
        ensures
            lit.bit_seq() == bits_of(bits),
            lit.source() is None,
            lit.value() == bits_to_int(bits_of(bits)),
    {
        let num = bits.to_int();
        IntLiteral { bits, string: None, num }
    }

    /// The bit pattern.
    pub fn bits(&self) -> (b: &Bits)
        ensures
            bits_of(*b) == self.bit_seq(),
    {
        &self.bits
    }

    /// The source text, if any.
    pub fn string(&self) -> (s: &Option<CompactString>)
        ensures
            *s == self.source(),
    {
        &self.string
    }

    /// The value.
    pub fn integer(&self) -> (i: &BigInt)
        ensures
            i@ == self.value(),
    {
        &self.num
    }

    /// The sign bit of the bit pattern, if any.
    pub fn sign(&self) -> (s: Sign)
        ensures
            s == bits_sign(self.bit_seq()),
    {
        self.bits.sign()
    }

    /// The literal as text: its source text when it has one, else as
    /// `display_chars` writes it.
    pub fn to_string(&self) -> (t: String)
        requires
            self.source() is Some || self.bit_seq().len() > 0,
        ensures
            match self.source() {
                Some(s) => vstd::utf8::encode_utf8(t@) == compact_bytes(s),
                None => t@ == display_chars(self.bit_seq(), self.value()),
            },
    {
        match &self.string {
            Some(s) => compact_to_string(s),
            None => {
                let n = bitvec_len(&self.bits);
                if (n > 1 && bitvec_get(&self.bits, 1)) || n == 2 {
                    self.num.to_decimal_string()
                } else {
                    let mut out: Vec<char> = Vec::new();
                    if bitvec_get(&self.bits, 0) {
                        out.push('-');
                    } else if n == 1 {
                        out.push('+');
                    }
                    out.push('b');
                    out.push('#');
                    let ghost pre = out@;
                    let ghost bs = self.bit_seq();
                    let ghost body = bit_chars(bs.drop_first());
                    let mut i: usize = 1;
                    while i < n
                        invariant
                            1 <= i <= n,
                            n == bs.len(),
                            bs == bits_of(self.bits),
                            out@ =~= pre + body.take(i - 1),
                            body == bit_chars(bs.drop_first()),
                        decreases n - i,
                    {
                        let bit = bitvec_get(&self.bits, i);
                        assert(body[i - 1] == (if bs[i as int] {
                            '1'
                        } else {
                            '0'
                        }));
                        assert(body.take(i as int) =~= body.take(i - 1).push(body[i - 1]));
                        if bit {
                            out.push('1');
                        } else {
                            out.push('0');
                        }
                        i = i + 1;
                    }
                    assert(body.take(n - 1) =~= body);
                    string_from_chars(&out)
                }
            },
        }
    }

    /// Parses an integer with the given radix, after an optional sign. A radix
    /// in 2..=36 uses the case-insensitive alphabet 0-9A-Z; a radix in 37..=62
    /// the case-sensitive alphabet 0-9A-Za-z. Single underscores may separate
    /// digits.
    pub fn parse_radix(s: CompactString, radix: u32) -> (r: Result<Self, ParseError>)
        requires
            compact_bytes(s).len() <= max_text_len(),
        ensures
            parsed_as(r, spec_parse_radix(compact_bytes(s), radix), s),
    {
        let b = compact_as_bytes(&s);
        let (sign, offset) = parse_sign(b);
        if offset == b.len() {
            return Err(ParseError::NoDigits);
        }
        Self::parse_digits(s, offset, sign, radix)
    }

    /// Parses an Erlang-like integer literal of the form `base#value`, where
    /// `base` is in 2..=62 (or a letter alias `b`/`B`, `o`/`O`, `x`/`X`), or
    /// unprefixed `value` in base 10, after an optional sign. Single
    /// underscores may separate digits, and `value` may be empty after an
    /// explicit radix.
    pub fn parse_erlang_style(s: CompactString) -> (r: Result<Self, ParseError>)
        requires
            compact_bytes(s).len() <= max_text_len(),
        ensures
            parsed_as(r, spec_parse_erlang(compact_bytes(s)), s),
    {
        let b = compact_as_bytes(&s);
        let (sign, offset) = parse_sign(b);
        let n = b.len();
        let (radix, start): (u32, usize) = if n >= offset + 2 && b[offset + 1] == 35 {
            let r = b[offset];
            if r == 98 || r == 66 {
                (2, offset + 2)
            } else if r == 111 || r == 79 {
                (8, offset + 2)
            } else if r == 120 || r == 88 {
                (16, offset + 2)
            } else if 50 <= r && r <= 57 {
                ((r - 48) as u32, offset + 2)
            } else {
                return Err(ParseError::InvalidRadix);
            }
        } else if n >= offset + 3 && b[offset + 2] == 35 {
            let r0 = b[offset];
            let r1 = b[offset + 1];
            if 49 <= r0 && r0 <= 54 && 48 <= r1 && r1 <= 57 {
                (((r0 - 48) * 10 + r1 - 48) as u32, offset + 3)
            } else {
                return Err(ParseError::InvalidRadix);
            }
        } else if n == offset {
            return Err(ParseError::NoDigits);
        } else {
            (10, offset)
        };
        match Self::parse_digits(s, start, sign, radix) {
            Err(ParseError::InvalidDigit { ch, .. }) if ch == '#' => Err(ParseError::InvalidRadix),
            result => result,
        }
    }

    /// Parses a C-like integer literal with an optional prefix that denotes
    /// the base: `0b`/`0B` for binary, `0`/`0o`/`0O` for octal, `0x`/`0X` for
    /// hexadecimal, or decimal otherwise, after an optional sign. Single
    /// underscores may separate digits.
    pub fn parse_c_style(s: CompactString) -> (r: Result<Self, ParseError>)
        requires
            compact_bytes(s).len() <= max_text_len(),
        ensures
            parsed_as(r, spec_parse_c(compact_bytes(s)), s),
    {
        let b = compact_as_bytes(&s);
        let (sign, offset) = parse_sign(b);
        let n = b.len();
        let (radix, start): (u32, usize) = if n >= offset + 2 && b[offset] == 48 {
            let r = b[offset + 1];
            if r == 98 || r == 66 {
                (2, offset + 2)
            } else if r == 111 || r == 79 {
                (8, offset + 2)
            } else if r == 120 || r == 88 {
                (16, offset + 2)
            } else {
                (8, offset + 1)
            }
        } else {
            (10, offset)
        };
        if start == n {
            return Err(ParseError::NoDigits);
        }
        Self::parse_digits(s, start, sign, radix)
    }

    /// The integer with the base-`radix` digits `digits` (digit values, not
    /// characters), negated when `negative`.
    fn integer_from_digits(digits: &Vec<u8>, negative: bool, radix: u32) -> (i: BigInt)
        requires
            2 <= radix <= 62,
            forall|j: int| 0 <= j < digits@.len() ==> digits@[j] < radix,
        ensures
            i@ == signed(negative, digits_value(digits@, radix as nat)),
            i.magnitude_bits() == binary(digits_value(digits@, radix as nat)),
    {
        let le = le_from_digits(digits, radix);
        BigInt::from_le(negative, &le)
    }

    /// Reads the digits of `s` from `offset` on in base `radix`.
    fn parse_digits(s: CompactString, offset: usize, sign: Sign, radix: u32) -> (r: Result<
        IntLiteral,
        ParseError,
    >)
        requires
            offset <= compact_bytes(s).len(),
            compact_bytes(s).len() <= max_text_len(),
            forall|j: int| 0 <= j < offset ==> compact_bytes(s)[j] < 128,
        ensures
            parsed_as(r, spec_parse_digits(compact_bytes(s), offset as int, sign, radix), s),
    {
        if radix < 2 || radix > 62 {
            return Err(ParseError::InvalidRadix);
        }
        let b = compact_as_bytes(&s);
        let n = b.len();
        let ghost d = b@.subrange(offset as int, n as int);
        let mut digits: Vec<u8> = Vec::new();
        let mut i = offset;
        assert(d.take(0) =~= Seq::<u8>::empty());
        while i < n
            invariant
                offset <= i <= n,
                n == b@.len(),
                b@ == compact_bytes(s),
                vstd::utf8::valid_utf8(b@),
                forall|j: int| 0 <= j < i ==> b@[j] < 128,
                2 <= radix <= 62,
                d == b@.subrange(offset as int, n as int),
                first_bad(d, radix, 0) == first_bad(d, radix, i - offset),
                digits@ == digit_seq(d.take(i - offset), radix),
                digits@.len() <= i - offset,
                forall|j: int| 0 <= j < digits@.len() ==> digits@[j] < radix,
            decreases n - i,
        {
            let c = b[i];
            let ghost k = i - offset;
            assert(d[k] == c);
            assert(d.take(k + 1).drop_last() =~= d.take(k));
            assert(d.take(k + 1).last() == c);
            if c == 95 {
                if i == offset || i == n - 1 || b[i - 1] == 95 {
                    proof {
                        if k > 0 {
                            assert(d[k - 1] == b@[i - 1]);
                        }
                        assert(bad_at(d, radix, k));
                    }
                    return Err(ParseError::IllegalUnderscore { offset: i });
                }
                assert(d[k - 1] == b@[i - 1]);
                assert(!bad_at(d, radix, k));
            } else {
                let dv = digit_of(c, radix);
                if dv as u32 >= radix {
                    assert(bad_at(d, radix, k));
                    proof {
                        lemma_valid_utf8_skip_ascii(b@, i as int);
                        assert(b@.subrange(i as int, n as int).len() > 0);
                    }
                    let (ch, _) = decode_utf8_at(b, i);
                    let ch = match ch {
                        Some(c) => c,
                        None => '\u{FFFD}',
                    };
                    return Err(ParseError::InvalidDigit { ch, offset: i });
                }
                assert(!bad_at(d, radix, k));
                digits.push(dv);
            }
            i = i + 1;
        }
        assert(d.take(d.len() as int) =~= d);
        let ghost ds = digit_seq(d, radix);
        let ghost v = digits_value(ds, radix as nat);
        let neg = match sign {
            Sign::Neg => true,
            _ => false,
        };
        let num = Self::integer_from_digits(&digits, neg, radix);
        proof {
            lemma_digits_value_bound(ds, radix as nat);
            lemma_binary_len(v, 6 * ds.len());
            lemma_bin_val_binary(v);
        }
        let bits = if digits.len() == 0 {
            signed_bits_from_zero(sign, 0)
        } else {
            let k = radix_bits_of(radix);
            if k > 0 {
                proof {
                    assert(5 * digits@.len() + 1 <= max_bits());
                }
                signed_bits_from_digits(neg, &digits, k)
            } else {
                let m = num.magnitude_ref();
                if m.len() == 0 {
                    signed_bits_from_zero(sign, 1)
                } else {
                    signed_bits_from_magnitude(neg, m)
                }
            }
        };
        assert(bits_of(bits) =~= literal_bits(sign, ds, radix));
        Ok(IntLiteral { bits, string: Some(s), num })
    }
}

impl From<Bits> for IntLiteral {
    /// A literal with the bit pattern `bits` and no source text.
    fn from(bits: Bits) -> (lit: Self)
        ensures
            lit.bit_seq() == bits_of(bits),
            lit.source() is None,
            lit.value() == bits_to_int(bits_of(bits)),
    {
        Self::from_bits(bits)
    }
}

impl vstd::std_specs::convert::FromSpecImpl<Bits> for IntLiteral {
    /// The result is pinned down by the `ensures` of `from`, not by a spec
    /// value.
    open spec fn obeys_from_spec() -> bool {
        false
    }

    open spec fn from_spec(v: Bits) -> Self {
        vstd::pervasive::arbitrary()
    }
}

} // verus!
