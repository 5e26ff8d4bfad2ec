//! What the literal parsers promise of every text: below radix 37 a letter is
//! the same digit in either case, a single underscore only separates digits,
//! and the sign bit is the sign written.
use vstd::prelude::*;

use crate::ws::int_literal::{
    bad_at, bits_sign, c_prefix, char_at, digit_seq, digit_value, erlang_prefix, first_bad,
    lemma_first_bad_all_good, lemma_first_bad_none, literal_bits, sign_prefix, spec_parse_c,
    spec_parse_digits, spec_parse_erlang, spec_parse_radix, ParseError, Sign,
};

verus! {

/// An ASCII upper-case letter turned to lower case; any other byte kept.
pub open spec fn lower_byte(c: u8) -> u8 {
    if 65 <= c <= 90 {
        (c + 32) as u8
    } else {
        c
    }
}

/// Text with its ASCII letters in lower case.
pub open spec fn ascii_lower(b: Seq<u8>) -> Seq<u8> {
    b.map_values(|c: u8| lower_byte(c))
}

/// The two outcomes are the same, but for the character that an invalid digit
/// is reported as.
pub open spec fn same_but_char(
    r1: Result<(Seq<bool>, int), ParseError>,
    r2: Result<(Seq<bool>, int), ParseError>,
) -> bool {
    match r1 {
        Err(ParseError::InvalidDigit { offset: o1, .. }) => r2 matches Err(
            ParseError::InvalidDigit { offset: o2, .. },
        ) && o1 == o2,
        _ => r1 == r2,
    }
}

/// Both outcomes are successes or both are failures, and two successes are
/// the same literal.
pub open spec fn same_when_read(
    r1: Result<(Seq<bool>, int), ParseError>,
    r2: Result<(Seq<bool>, int), ParseError>,
) -> bool {
    &&& (r1 is Ok) == (r2 is Ok)
    &&& r1 is Ok ==> r1 == r2
}

proof fn lemma_ascii_char(b: Seq<u8>, p: int)
    requires
        0 <= p < b.len(),
        b[p] <= 0x7f,
    ensures
        char_at(b, p) == b[p] as char,
{
    let x = b[p];
    assert(b.subrange(p, b.len() as int)[0] == x);
    assert(x & 0x7f == x) by (bit_vector)
        requires
            x <= 0x7f,
    ;
}

proof fn lemma_bad_at_lower(d: Seq<u8>, radix: u32, i: int)
    requires
        2 <= radix <= 36,
        0 <= i < d.len(),
    ensures
        bad_at(ascii_lower(d), radix, i) == bad_at(d, radix, i),
        (ascii_lower(d)[i] == 95) == (d[i] == 95),
{
    let l = ascii_lower(d);
    assert(l[i] == lower_byte(d[i]));
    if i > 0 {
        assert(l[i - 1] == lower_byte(d[i - 1]));
    }
}

proof fn lemma_first_bad_lower(d: Seq<u8>, radix: u32, j: int)
    requires
        2 <= radix <= 36,
        0 <= j,
    ensures
        first_bad(ascii_lower(d), radix, j) == first_bad(d, radix, j),
    decreases d.len() - j,
{
    if j < d.len() {
        lemma_bad_at_lower(d, radix, j);
        lemma_first_bad_lower(d, radix, j + 1);
    }
}

proof fn lemma_digit_seq_lower(d: Seq<u8>, radix: u32)
    requires
        2 <= radix <= 36,
    ensures
        digit_seq(ascii_lower(d), radix) == digit_seq(d, radix),
    decreases d.len(),
{
    if d.len() > 0 {
        assert(ascii_lower(d).drop_last() =~= ascii_lower(d.drop_last()));
        assert(ascii_lower(d).last() == lower_byte(d.last()));
        lemma_digit_seq_lower(d.drop_last(), radix);
    }
}

/// A character decoded from valid UTF-8 is `#` just when its first byte is,
/// in the text and in the text with its letters in lower case.
proof fn lemma_char_at_lower(b: Seq<u8>, p: int)
    requires
        0 <= p < b.len(),
        vstd::utf8::valid_utf8(b.subrange(p, b.len() as int)),
    ensures
        (char_at(b, p) == '#') == (b[p] == 35),
        (char_at(ascii_lower(b), p) == '#') == (b[p] == 35),
{
    let l = ascii_lower(b);
    assert(l[p] == lower_byte(b[p]));
    if b[p] <= 0x7f {
        lemma_ascii_char(b, p);
        lemma_ascii_char(l, p);
        assert(('#' as u32) == 35);
        assert(((b[p] as char) == '#') == (b[p] == 35));
        assert(((l[p] as char) == '#') == (l[p] == 35));
    } else {
        let s1 = b.subrange(p, b.len() as int);
        let s2 = l.subrange(p, l.len() as int);
        assert(vstd::utf8::valid_first_scalar(s1));
        assert(s1[0] == b[p]);
        assert(s2[0] == s1[0]);
        let w = vstd::utf8::length_of_first_codepoint(s1);
        assert(2 <= w <= 4);
        assert forall|k: int| 1 <= k < w implies s2[k] == s1[k] by {
            assert(s2[k] == lower_byte(s1[k]));
            assert(vstd::utf8::is_continuation_byte(s1[k]));
        }
        assert(vstd::utf8::decode_first_codepoint(s2) == vstd::utf8::decode_first_codepoint(s1));
        let cp = vstd::utf8::decode_first_codepoint(s1);
        assert(cp >= 0x80);
        let (c0, c1, c2) = (s1[0], s1[1], s1[2]);
        if w == 2 {
            assert(cp <= 0x7ff) by (bit_vector)
                requires
                    cp == (((c0 & 0x1F) as u32) << 6) | ((c1 & 0x3F) as u32),
            ;
        } else if w == 3 {
            assert(cp <= 0xffff) by (bit_vector)
                requires
                    cp == (((c0 & 0x0F) as u32) << 12) | (((c1 & 0x3F) as u32) << 6) | ((c2
                        & 0x3F) as u32),
            ;
        }
        lemma_scalar_not_hash(cp);
    }
}

proof fn lemma_scalar_not_hash(cp: u32)
    requires
        0x80 <= cp <= 0x10ffff,
        !(0xD800 <= cp <= 0xDFFF),
    ensures
        (cp as char) != '#',
{
}

/// A digit or an underscore is an ASCII byte.
proof fn lemma_good_is_ascii(d: Seq<u8>, radix: u32, j: int)
    requires
        radix <= 62,
        0 <= j < d.len(),
        !bad_at(d, radix, j),
    ensures
        d[j] < 128,
{
}

/// The digits of `b` from `o` on read the same in lower case, for a radix up
/// to 36, but for the character an invalid digit is reported as; that one is
/// `#` in both or in neither.
proof fn lemma_digits_lower(b: Seq<u8>, o: int, sign: Sign, radix: u32)
    requires
        0 <= o <= b.len(),
        vstd::utf8::valid_utf8(b),
        forall|j: int| 0 <= j < o ==> b[j] < 128,
        !(37 <= radix <= 62),
    ensures
        same_but_char(
            spec_parse_digits(b, o, sign, radix),
            spec_parse_digits(ascii_lower(b), o, sign, radix),
        ),
        (spec_parse_digits(b, o, sign, radix) matches Err(ParseError::InvalidDigit { ch, .. })
            && ch == '#') == (spec_parse_digits(ascii_lower(b), o, sign, radix) matches Err(
            ParseError::InvalidDigit { ch, .. },
        ) && ch == '#'),
{
    let l = ascii_lower(b);
    if 2 <= radix <= 36 {
        let d = b.subrange(o, b.len() as int);
        assert(l.subrange(o, l.len() as int) =~= ascii_lower(d));
        lemma_first_bad_lower(d, radix, 0);
        lemma_digit_seq_lower(d, radix);
        if let Some(i) = first_bad(d, radix, 0) {
            lemma_first_bad_some(d, radix, 0);
            lemma_bad_at_lower(d, radix, i);
            let p = o + i;
            assert(d[i] == b[p]);
            assert forall|j: int| 0 <= j < p implies b[j] < 128 by {
                if j >= o {
                    assert(d[j - o] == b[j]);
                    lemma_good_is_ascii(d, radix, j - o);
                }
            }
            crate::ws::int_literal::lemma_valid_utf8_skip_ascii(b, p);
            lemma_char_at_lower(b, p);
        }
    }
}

/// The first fault found from `j` on is a fault, and there is none before it.
proof fn lemma_first_bad_some(d: Seq<u8>, radix: u32, j: int)
    requires
        0 <= j,
        first_bad(d, radix, j) is Some,
    ensures
        j <= first_bad(d, radix, j)->0 < d.len(),
        bad_at(d, radix, first_bad(d, radix, j)->0),
        forall|k: int| j <= k < first_bad(d, radix, j)->0 ==> !bad_at(d, radix, k),
    decreases d.len() - j,
{
    if j < d.len() && !bad_at(d, radix, j) {
        lemma_first_bad_some(d, radix, j + 1);
    }
}

/// Below radix 37 a letter is the same digit in either case: reading a text
/// with its letters turned to lower case gives the same literal, or the same
/// error at the same place (an invalid digit is reported as the character
/// found there). This holds for the radix parser with a radix up to 36, for
/// the C-style parser, and for the Erlang-style parser unless the text names
/// a radix from 37 to 62, where case tells digits apart.
pub proof fn law_case_insensitive(b: Seq<u8>, radix: u32)
    requires
        vstd::utf8::valid_utf8(b),
    ensures
        !(37 <= radix <= 62) ==> same_but_char(
            spec_parse_radix(b, radix),
            spec_parse_radix(ascii_lower(b), radix),
        ),
        same_but_char(spec_parse_c(b), spec_parse_c(ascii_lower(b))),
        !(erlang_prefix(b, sign_prefix(b).1) matches Ok((r, _)) && 37 <= r <= 62) ==> same_but_char(
            spec_parse_erlang(b),
            spec_parse_erlang(ascii_lower(b)),
        ),
        sign_prefix(ascii_lower(b)) == sign_prefix(b),
        erlang_prefix(ascii_lower(b), sign_prefix(b).1) == erlang_prefix(b, sign_prefix(b).1),
{
    let l = ascii_lower(b);
    assert(l.len() == b.len());
    if b.len() > 0 {
        assert(l[0] == lower_byte(b[0]));
    }
    let (sign, o) = sign_prefix(b);
    assert(sign_prefix(l) == sign_prefix(b));
    if !(37 <= radix <= 62) && o < b.len() {
        lemma_digits_lower(b, o, sign, radix);
    }
    // C style: the prefix is `0` and a letter of either case, or none.
    if b.len() >= o + 2 {
        assert(l[o] == lower_byte(b[o]));
        assert(l[o + 1] == lower_byte(b[o + 1]));
    }
    assert(c_prefix(l, o) == c_prefix(b, o));
    let (cr, cs) = c_prefix(b, o);
    if cs < b.len() {
        assert forall|j: int| 0 <= j < cs implies b[j] < 128 by {
            if j >= o {
                assert(b[o] == 48);
            }
        }
        lemma_digits_lower(b, cs, sign, cr);
    }
    // Erlang style: the radix letters name the same radix in either case.
    if b.len() >= o + 3 {
        assert(l[o + 2] == lower_byte(b[o + 2]));
    }
    assert(erlang_prefix(l, o) == erlang_prefix(b, o));
    if let Ok((er, es)) = erlang_prefix(b, o) {
        if !(37 <= er <= 62) {
            assert forall|j: int| 0 <= j < es implies b[j] < 128 by {
            }
            lemma_digits_lower(b, es, sign, er);
        }
    }
}


proof fn lemma_digit_seq_concat(a: Seq<u8>, c: Seq<u8>, radix: u32)
    ensures
        digit_seq(a + c, radix) == digit_seq(a, radix) + digit_seq(c, radix),
    decreases c.len(),
{
    if c.len() == 0 {
        assert(a + c =~= a);
        assert(digit_seq(a, radix) + Seq::<u8>::empty() =~= digit_seq(a, radix));
    } else {
        assert((a + c).drop_last() =~= a + c.drop_last());
        assert((a + c).last() == c.last());
        lemma_digit_seq_concat(a, c.drop_last(), radix);
        if c.last() != 95 {
            let x = digit_value(c.last(), radix);
            assert(digit_seq(a, radix) + digit_seq(c.drop_last(), radix).push(x) =~= (digit_seq(
                a,
                radix,
            ) + digit_seq(c.drop_last(), radix)).push(x));
        }
    }
}

/// Putting an underscore at `k`, between two characters that are not
/// underscores, moves each fault of `d` from `k` on one place along and adds
/// none.
proof fn lemma_bad_at_insert(d: Seq<u8>, radix: u32, k: int, j: int)
    requires
        0 < k < d.len(),
        d[k - 1] != 95,
        d[k] != 95,
        0 <= j < d.len() + 1,
    ensures
        j < k ==> bad_at(d.insert(k, 95), radix, j) == bad_at(d, radix, j),
        j == k ==> !bad_at(d.insert(k, 95), radix, j),
        j > k ==> bad_at(d.insert(k, 95), radix, j) == bad_at(d, radix, j - 1),
{
    let e = d.insert(k, 95);
    assert(e.len() == d.len() + 1);
    if j < k {
        assert(e[j] == d[j]);
        if j > 0 {
            assert(e[j - 1] == d[j - 1]);
        }
    } else if j == k {
        assert(e[j] == 95);
        assert(e[j - 1] == d[j - 1]);
    } else {
        assert(e[j] == d[j - 1]);
        if j > k + 1 {
            assert(e[j - 1] == d[j - 2]);
        }
    }
}

/// The digits of `b` from `o` on read the same with a single underscore put
/// in between two of them.
proof fn lemma_digits_underscore(b: Seq<u8>, o: int, sign: Sign, radix: u32, i: int)
    requires
        0 <= o < i < b.len(),
        b[i - 1] != 95,
        b[i] != 95,
    ensures
        same_when_read(
            spec_parse_digits(b, o, sign, radix),
            spec_parse_digits(b.insert(i, 95), o, sign, radix),
        ),
{
    if 2 <= radix <= 62 {
        let e = b.insert(i, 95);
        let d = b.subrange(o, b.len() as int);
        let k = i - o;
        let de = e.subrange(o, e.len() as int);
        assert(de =~= d.insert(k, 95));
        assert(d[k - 1] == b[i - 1] && d[k] == b[i]);
        if first_bad(d, radix, 0) is None {
            lemma_first_bad_none(d, radix, 0);
            assert forall|j: int| 0 <= j < de.len() implies !bad_at(de, radix, j) by {
                lemma_bad_at_insert(d, radix, k, j);
            }
            lemma_first_bad_all_good(de, radix, 0);
        }
        if first_bad(de, radix, 0) is None {
            lemma_first_bad_none(de, radix, 0);
            assert forall|j: int| 0 <= j < d.len() implies !bad_at(d, radix, j) by {
                if j < k {
                    lemma_bad_at_insert(d, radix, k, j);
                } else {
                    lemma_bad_at_insert(d, radix, k, j + 1);
                }
            }
            lemma_first_bad_all_good(d, radix, 0);
        }
        assert(d =~= d.take(k) + d.skip(k));
        assert(de =~= d.take(k) + seq![95u8] + d.skip(k));
        lemma_digit_seq_concat(d.take(k), d.skip(k), radix);
        lemma_digit_seq_concat(d.take(k) + seq![95u8], d.skip(k), radix);
        lemma_digit_seq_concat(d.take(k), seq![95u8], radix);
        assert(seq![95u8].drop_last() =~= Seq::<u8>::empty());
        assert(seq![95u8].last() == 95u8);
        assert(digit_seq(Seq::<u8>::empty(), radix) =~= Seq::<u8>::empty());
        assert(digit_seq(seq![95u8], radix) =~= Seq::<u8>::empty());
        assert(digit_seq(d.take(k), radix) + Seq::<u8>::empty() =~= digit_seq(d.take(k), radix));
    }
}

/// A single underscore separates digits and means nothing else: putting one
/// among a literal's digits, between two characters that are not
/// underscores, leaves whether the text reads, and the literal it reads as,
/// unchanged. This holds for each parser, for a place after the sign and the
/// radix prefix.
pub proof fn law_underscore_separates(b: Seq<u8>, radix: u32, i: int)
    requires
        0 < i < b.len(),
        b[i - 1] != 95,
        b[i] != 95,
    ensures
        sign_prefix(b).1 < i ==> same_when_read(
            spec_parse_radix(b, radix),
            spec_parse_radix(b.insert(i, 95), radix),
        ),
        c_prefix(b, sign_prefix(b).1).1 < i ==> same_when_read(
            spec_parse_c(b),
            spec_parse_c(b.insert(i, 95)),
        ),
        (erlang_prefix(b, sign_prefix(b).1) matches Ok((_, start)) && start < i) ==> same_when_read(
            spec_parse_erlang(b),
            spec_parse_erlang(b.insert(i, 95)),
        ),
{
    let e = b.insert(i, 95);
    assert(e.len() == b.len() + 1);
    assert(e[0] == b[0]);
    assert(sign_prefix(e) == sign_prefix(b));
    let (sign, o) = sign_prefix(b);
    if o < i {
        lemma_digits_underscore(b, o, sign, radix, i);
    }
    let (cr, cs) = c_prefix(b, o);
    if cs < i {
        assert(e[o] == b[o]);
        if o + 1 < i {
            assert(e[o + 1] == b[o + 1]);
        }
        assert(c_prefix(e, o) == c_prefix(b, o));
        lemma_digits_underscore(b, cs, sign, cr, i);
    }
    if let Ok((er, es)) = erlang_prefix(b, o) {
        if es < i {
            assert(e[o] == b[o]);
            if o + 1 < i {
                assert(e[o + 1] == b[o + 1]);
            }
            if o + 2 < i {
                assert(e[o + 2] == b[o + 2]);
            }
            if o + 2 > i {
                assert(e[o + 2] == b[o + 1]);
            }
            assert(erlang_prefix(e, o) == erlang_prefix(b, o));
            lemma_digits_underscore(b, es, sign, er, i);
        }
    }
}

/// Text whose first character is not an underscore holds a digit.
proof fn lemma_digit_seq_nonempty(d: Seq<u8>, radix: u32)
    requires
        d.len() > 0,
        d[0] != 95,
    ensures
        digit_seq(d, radix).len() > 0,
    decreases d.len(),
{
    if d.len() > 1 && d.last() == 95 {
        assert(d.drop_last()[0] == d[0]);
        lemma_digit_seq_nonempty(d.drop_last(), radix);
    }
}

/// A literal's sign bit is the sign it was written with: a minus reads as a
/// one bit, a plus as a zero bit, and no sign as a zero bit before digits and
/// as no bits at all without them. A literal has no bits exactly when it was
/// written with neither a sign nor digits. A value below zero was written with
/// a minus.
pub proof fn law_sign_written(b: Seq<u8>, o: int, sign: Sign, radix: u32)
    ensures
        spec_parse_digits(b, o, sign, radix) matches Ok((bits, v)) ==> {
            &&& bits_sign(bits) == sign || (sign == Sign::Empty && bits_sign(bits) == Sign::Pos)
            &&& v < 0 ==> sign == Sign::Neg
            &&& 0 <= o <= b.len() ==> ((bits.len() == 0) == (sign == Sign::Empty && o == b.len()))
        },
{
    if let Ok((bits, v)) = spec_parse_digits(b, o, sign, radix) {
        let d = b.subrange(o, b.len() as int);
        let ds = digit_seq(d, radix);
        assert(bits == literal_bits(sign, ds, radix));
        if 0 <= o <= b.len() {
            if o < b.len() {
                lemma_first_bad_none(d, radix, 0);
                assert(!bad_at(d, radix, 0));
                lemma_digit_seq_nonempty(d, radix);
            } else {
                assert(d =~= Seq::<u8>::empty());
            }
        }
    }
}

/// An ASCII lower-case letter turned to upper case; any other byte kept.
pub open spec fn upper_byte(c: u8) -> u8 {
    if 97 <= c <= 122 {
        (c - 32) as u8
    } else {
        c
    }
}

/// Text with its ASCII letters in upper case.
pub open spec fn ascii_upper(b: Seq<u8>) -> Seq<u8> {
    b.map_values(|c: u8| upper_byte(c))
}

/// Turning ASCII letters to upper case keeps text valid UTF-8.
proof fn lemma_valid_utf8_upper(b: Seq<u8>)
    requires
        vstd::utf8::valid_utf8(b),
    ensures
        vstd::utf8::valid_utf8(ascii_upper(b)),
    decreases b.len(),
{
    let u = ascii_upper(b);
    if b.len() > 0 {
        assert(u[0] == upper_byte(b[0]));
        if b[0] <= 0x7f {
            let x = u[0];
            assert(x & 0x7f == x) by (bit_vector)
                requires
                    x <= 0x7f,
            ;
            assert(vstd::utf8::pop_first_scalar(b) =~= b.subrange(1, b.len() as int));
            assert(vstd::utf8::pop_first_scalar(u) =~= ascii_upper(b.subrange(1, b.len() as int)));
            lemma_valid_utf8_upper(b.subrange(1, b.len() as int));
        } else {
            let w = vstd::utf8::length_of_first_codepoint(b);
            assert forall|k: int| 0 <= k < w implies u[k] == b[k] by {
                assert(u[k] == upper_byte(b[k]));
            }
            assert(vstd::utf8::decode_first_codepoint(u) == vstd::utf8::decode_first_codepoint(b));
            assert(vstd::utf8::pop_first_scalar(u) =~= ascii_upper(vstd::utf8::pop_first_scalar(b)));
            lemma_valid_utf8_upper(vstd::utf8::pop_first_scalar(b));
        }
    }
}

/// The outcome relation of `same_but_char` is symmetric and transitive.
proof fn lemma_same_but_char(
    r1: Result<(Seq<bool>, int), ParseError>,
    r2: Result<(Seq<bool>, int), ParseError>,
    r3: Result<(Seq<bool>, int), ParseError>,
)
    requires
        same_but_char(r1, r3),
        same_but_char(r2, r3),
    ensures
        same_but_char(r1, r2),
{
}

/// Below radix 37 a letter is the same digit in either case, read the other
/// way round: reading a text with its letters turned to upper case gives the
/// same literal, or the same error at the same place, under the same
/// conditions as `law_case_insensitive`.
pub proof fn law_case_insensitive_upper(b: Seq<u8>, radix: u32)
    requires
        vstd::utf8::valid_utf8(b),
    ensures
        !(37 <= radix <= 62) ==> same_but_char(
            spec_parse_radix(b, radix),
            spec_parse_radix(ascii_upper(b), radix),
        ),
        same_but_char(spec_parse_c(b), spec_parse_c(ascii_upper(b))),
        !(erlang_prefix(b, sign_prefix(b).1) matches Ok((r, _)) && 37 <= r <= 62) ==> same_but_char(
            spec_parse_erlang(b),
            spec_parse_erlang(ascii_upper(b)),
        ),
{
    let u = ascii_upper(b);
    lemma_valid_utf8_upper(b);
    law_case_insensitive(b, radix);
    law_case_insensitive(u, radix);
    assert(ascii_lower(u) =~= ascii_lower(b));
    if !(37 <= radix <= 62) {
        lemma_same_but_char(
            spec_parse_radix(b, radix),
            spec_parse_radix(u, radix),
            spec_parse_radix(ascii_lower(b), radix),
        );
    }
    lemma_same_but_char(spec_parse_c(b), spec_parse_c(u), spec_parse_c(ascii_lower(b)));
    if !(erlang_prefix(b, sign_prefix(b).1) matches Ok((r, _)) && 37 <= r <= 62) {
        assert(sign_prefix(u) == sign_prefix(b));
        assert(erlang_prefix(u, sign_prefix(u).1) == erlang_prefix(b, sign_prefix(b).1));
        lemma_same_but_char(
            spec_parse_erlang(b),
            spec_parse_erlang(u),
            spec_parse_erlang(ascii_lower(b)),
        );
    }
}

/// The sign as written: nothing, `+` or `-`.
pub open spec fn sign_text(sign: Sign) -> Seq<u8> {
    match sign {
        Sign::Empty => Seq::empty(),
        Sign::Pos => seq![43u8],
        Sign::Neg => seq![45u8],
    }
}

/// `r2` is the outcome `r1` with every offset it reports moved back by `k`.
pub open spec fn shifted_outcome(
    r1: Result<(Seq<bool>, int), ParseError>,
    r2: Result<(Seq<bool>, int), ParseError>,
    k: int,
) -> bool {
    match r1 {
        Ok(_) => r1 == r2,
        Err(ParseError::InvalidDigit { ch, offset }) => r2 == Err::<(Seq<bool>, int), ParseError>(
            ParseError::InvalidDigit { ch, offset: (offset - k) as usize },
        ),
        Err(ParseError::IllegalUnderscore { offset }) => r2 == Err::<(Seq<bool>, int), ParseError>(
            ParseError::IllegalUnderscore { offset: (offset - k) as usize },
        ),
        Err(e) => r2 == Err::<(Seq<bool>, int), ParseError>(e),
    }
}

/// The same digit text read at two places reads the same, its faults
/// reported at places apart by the same distance.
proof fn lemma_digits_shift(b1: Seq<u8>, o1: int, b2: Seq<u8>, o2: int, sign: Sign, radix: u32)
    requires
        0 <= o2 <= o1 <= b1.len(),
        o2 <= b2.len(),
        b1.len() <= usize::MAX,
        b1.subrange(o1, b1.len() as int) == b2.subrange(o2, b2.len() as int),
    ensures
        shifted_outcome(
            spec_parse_digits(b1, o1, sign, radix),
            spec_parse_digits(b2, o2, sign, radix),
            o1 - o2,
        ),
{
    if 2 <= radix <= 62 {
        let d = b1.subrange(o1, b1.len() as int);
        if first_bad(d, radix, 0) is Some {
            lemma_first_bad_some(d, radix, 0);
            let i = first_bad(d, radix, 0)->0;
            let s1 = b1.subrange(o1 + i, b1.len() as int);
            let s2 = b2.subrange(o2 + i, b2.len() as int);
            let d2 = b2.subrange(o2, b2.len() as int);
            assert forall|k: int| 0 <= k < s1.len() implies #[trigger] s1[k] == s2[k] by {
                assert(s1[k] == d[i + k]);
                assert(s2[k] == d2[i + k]);
            }
            assert(s1 =~= s2);
            assert(d[i] == b2[o2 + i]);
        }
    }
}

/// The C-style prefixes that name a radix, each with that radix.
pub open spec fn c_radix_prefix(q: Seq<u8>, r: u32) -> bool {
    ||| (q == seq![48u8, 98u8] || q == seq![48u8, 66u8]) && r == 2
    ||| (q == seq![48u8, 111u8] || q == seq![48u8, 79u8]) && r == 8
    ||| (q == seq![48u8, 120u8] || q == seq![48u8, 88u8]) && r == 16
}

/// A letter that, after a leading `0`, names a radix in C style.
pub open spec fn c_radix_letter(c: u8) -> bool {
    c == 98 || c == 66 || c == 111 || c == 79 || c == 120 || c == 88
}

/// A C-style prefix names its radix: a literal written with `0b`/`0B`,
/// `0o`/`0O`, `0x`/`0X`, or a bare `0` before digits, reads as its digits do
/// in that radix (2, 8, 16, 8), every fault reported the prefix's length
/// further on. Without a sign the digits may not start with one.
pub proof fn law_c_prefix_names_radix(sign: Sign, q: Seq<u8>, r: u32, d: Seq<u8>)
    requires
        c_radix_prefix(q, r) || (q == seq![48u8] && r == 8 && d.len() > 0 && !c_radix_letter(d[0])),
        sign == Sign::Empty && d.len() > 0 ==> d[0] != 43 && d[0] != 45,
        sign_text(sign).len() + q.len() + d.len() <= usize::MAX,
    ensures
        shifted_outcome(
            spec_parse_c(sign_text(sign) + q + d),
            spec_parse_radix(sign_text(sign) + d, r),
            q.len() as int,
        ),
{
    let st = sign_text(sign);
    let b1 = st + q + d;
    let b2 = st + d;
    let o = st.len() as int;
    assert(b1[o] == q[0]);
    if d.len() > 0 {
        assert(b2[o] == d[0]);
    }
    assert(sign_prefix(b1) == (sign, o));
    assert(sign_prefix(b2) == (sign, o));
    assert(b1[o + 1] == (if q.len() == 2 { q[1] } else { d[0] }));
    assert(c_prefix(b1, o) == (r, o + q.len()));
    assert(b1.subrange(o + q.len(), b1.len() as int) =~= d);
    assert(b2.subrange(o, b2.len() as int) =~= d);
    lemma_digits_shift(b1, o + q.len(), b2, o, sign, r);
}

/// A C-style literal without a leading `0` before its digits is decimal: it
/// reads as the radix parser reads it in base 10, faults included.
pub proof fn law_c_unprefixed_is_decimal(b: Seq<u8>)
    requires
        !(b.len() >= sign_prefix(b).1 + 2 && b[sign_prefix(b).1] == 48),
    ensures
        spec_parse_c(b) == spec_parse_radix(b, 10),
{
}

/// The decimal text of a radix from 2 to 62, without a leading zero.
pub open spec fn radix_text(r: u32) -> Seq<u8> {
    if r < 10 {
        seq![(48 + r) as u8]
    } else {
        seq![(48 + r / 10) as u8, (48 + r % 10) as u8]
    }
}

/// An Erlang-style radix prefix names its radix: a literal written as
/// `radix#digits`, with the radix in decimal from 2 to 62, reads when its
/// digits read in that radix, and as the same literal. Without a sign the
/// digits may not start with one.
pub proof fn law_erlang_prefix_names_radix(sign: Sign, r: u32, d: Seq<u8>)
    requires
        2 <= r <= 62,
        d.len() > 0,
        sign == Sign::Empty ==> d[0] != 43 && d[0] != 45,
        sign_text(sign).len() + 3 + d.len() <= usize::MAX,
    ensures
        same_when_read(
            spec_parse_erlang(sign_text(sign) + radix_text(r) + seq![35u8] + d),
            spec_parse_radix(sign_text(sign) + d, r),
        ),
{
    let st = sign_text(sign);
    let rt = radix_text(r);
    let b1 = st + rt + seq![35u8] + d;
    let b2 = st + d;
    let o = st.len() as int;
    assert(b1[o] == rt[0]);
    assert(b2[o] == d[0]);
    assert(sign_prefix(b1) == (sign, o));
    assert(sign_prefix(b2) == (sign, o));
    let start = o + rt.len() + 1;
    if r < 10 {
        assert(b1[o + 1] == 35);
    } else {
        assert(b1[o + 1] == rt[1]);
        assert(b1[o + 2] == 35);
        assert((r / 10) * 10 + r % 10 == r);
    }
    assert(erlang_prefix(b1, o) == Ok::<(u32, int), ParseError>((r, start)));
    assert(b1.subrange(start, b1.len() as int) =~= d);
    assert(b2.subrange(o, b2.len() as int) =~= d);
    lemma_digits_shift(b1, start, b2, o, sign, r);
}

/// An Erlang-style literal with no `#` after its sign names no radix: it reads
/// as the radix parser reads it in base 10, faults included.
pub proof fn law_erlang_unprefixed_is_decimal(b: Seq<u8>)
    requires
        vstd::utf8::valid_utf8(b),
        sign_prefix(b).1 < b.len(),
        forall|j: int| sign_prefix(b).1 <= j < b.len() ==> b[j] != 35,
    ensures
        spec_parse_erlang(b) == spec_parse_radix(b, 10),
{
    let (sign, o) = sign_prefix(b);
    if b.len() >= o + 2 {
        assert(b[o + 1] != 35);
    }
    if b.len() >= o + 3 {
        assert(b[o + 2] != 35);
    }
    assert(erlang_prefix(b, o) == Ok::<(u32, int), ParseError>((10, o)));
    let d = b.subrange(o, b.len() as int);
    if first_bad(d, 10, 0) is Some {
        lemma_first_bad_some(d, 10, 0);
        let i = first_bad(d, 10, 0)->0;
        let p = o + i;
        assert forall|j: int| 0 <= j < p implies b[j] < 128 by {
            if j >= o {
                assert(d[j - o] == b[j]);
                lemma_good_is_ascii(d, 10, j - o);
            }
        }
        crate::ws::int_literal::lemma_valid_utf8_skip_ascii(b, p);
        lemma_char_at_lower(b, p);
    }
}

/// The radix an Erlang-style letter alias names: `b`/`B` binary, `o`/`O`
/// octal, `x`/`X` hexadecimal.
pub open spec fn alias_radix(a: u8) -> u32 {
    if a == 98 || a == 66 {
        2
    } else if a == 111 || a == 79 {
        8
    } else {
        16
    }
}

/// The Erlang-style letter aliases name their radices: a literal written as
/// `b#digits`, `o#digits` or `x#digits` (either case) reads when its digits
/// read in radix 2, 8 or 16, and as the same literal. Without a sign the
/// digits may not start with one.
pub proof fn law_erlang_alias_names_radix(sign: Sign, a: u8, d: Seq<u8>)
    requires
        a == 98 || a == 66 || a == 111 || a == 79 || a == 120 || a == 88,
        d.len() > 0,
        sign == Sign::Empty ==> d[0] != 43 && d[0] != 45,
        sign_text(sign).len() + 2 + d.len() <= usize::MAX,
    ensures
        same_when_read(
            spec_parse_erlang(sign_text(sign) + seq![a, 35u8] + d),
            spec_parse_radix(sign_text(sign) + d, alias_radix(a)),
        ),
        a == 98 || a == 66 ==> alias_radix(a) == 2,
        a == 111 || a == 79 ==> alias_radix(a) == 8,
        a == 120 || a == 88 ==> alias_radix(a) == 16,
{
    let st = sign_text(sign);
    let b1 = st + seq![a, 35u8] + d;
    let b2 = st + d;
    let o = st.len() as int;
    let r = alias_radix(a);
    assert(b1[o] == a);
    assert(b1[o + 1] == 35);
    assert(b2[o] == d[0]);
    assert(sign_prefix(b1) == (sign, o));
    assert(sign_prefix(b2) == (sign, o));
    assert(erlang_prefix(b1, o) == Ok::<(u32, int), ParseError>((r, o + 2)));
    assert(b1.subrange(o + 2, b1.len() as int) =~= d);
    assert(b2.subrange(o, b2.len() as int) =~= d);
    lemma_digits_shift(b1, o + 2, b2, o, sign, r);
}

} // verus!
