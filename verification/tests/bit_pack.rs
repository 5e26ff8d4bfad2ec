use yspace2::ws::bit_pack::BitLexer;
use yspace2::ws::tests::{TUTORIAL_BITS, TUTORIAL_TOKENS};
use yspace2::ws::token::Token::{self, L, S, T};

fn lex_all(src: &[u8]) -> Vec<Token> {
    let mut lex = BitLexer::new(src);
    let mut out = Vec::new();
    while let Some(t) = lex.next() {
        out.push(t);
    }
    out
}

#[test]
fn lexes_tutorial() {
    assert_eq!(lex_all(&TUTORIAL_BITS), TUTORIAL_TOKENS);
}

#[test]
fn empty_source_has_no_tokens() {
    assert_eq!(lex_all(&[]), Vec::<Token>::new());
}

#[test]
fn trailing_zeros_and_marker_end_the_stream() {
    // 1000_0000: a lone marker bit.
    assert_eq!(lex_all(&[0x80]), Vec::<Token>::new());
    // 0100_0000: S, then the marker.
    assert_eq!(lex_all(&[0x40]), vec![S]);
    // 1011_0000: T, L; the trailing zeros are padding.
    assert_eq!(lex_all(&[0xb0]), vec![T, L]);
    // zero bytes before the last byte are data.
    assert_eq!(lex_all(&[0x00, 0x80]), vec![S, S, S, S, S, S, S, S]);
    // a zero last byte holds no data.
    assert_eq!(lex_all(&[0xc0, 0x00]), vec![L, S, S, S, S, S, S]);
}

#[test]
fn lexer_stays_done() {
    let mut lex = BitLexer::new(&[0x40]);
    assert_eq!(lex.next(), Some(S));
    assert_eq!(lex.next(), None);
    assert_eq!(lex.next(), None);
    let mut copy = lex.clone();
    assert_eq!(copy.next(), None);
}

#[test]
fn encoded_tokens_decode_back() {
    // S T L L S, encoded 0 10 11 11 0, marker 1, padded: 0101_1110 1000_0000
    assert_eq!(lex_all(&[0b0101_1110, 0b1000_0000]), vec![S, T, L, L, S]);
}

/// Packs bits into bytes, most significant bit first, zero padded.
fn pack(bits: &[bool]) -> Vec<u8> {
    bits.chunks(8)
        .map(|c| c.iter().enumerate().fold(0u8, |b, (i, &x)| if x { b | (0x80 >> i) } else { b }))
        .collect()
}

fn encode(ts: &[Token]) -> Vec<bool> {
    let mut bits = Vec::new();
    for t in ts {
        match t {
            S => bits.push(false),
            T => bits.extend([true, false]),
            L => bits.extend([true, true]),
        }
    }
    bits
}

#[test]
fn packed_token_streams_lex_back() {
    for ts in [vec![], vec![S], vec![S, S, S, S, S, S, S], vec![L, T, S, S, L, T, T, S], TUTORIAL_TOKENS.to_vec()] {
        let mut bits = encode(&ts);
        bits.push(true);
        assert_eq!(lex_all(&pack(&bits)), ts);
    }
    // A program that ends in L needs no end marker.
    assert_eq!(pack(&encode(&TUTORIAL_TOKENS)), TUTORIAL_BITS);
}

#[test]
fn collect_tokens_reads_whole_program() {
    let mut lex = BitLexer::new(&TUTORIAL_BITS);
    assert_eq!(lex.collect_tokens(), TUTORIAL_TOKENS.to_vec());
    assert_eq!(lex.next(), None);
    assert_eq!(BitLexer::new(&[0b0110_1000]).collect_tokens(), vec![S, L, S]);
}

#[test]
fn collect_bits_reads_the_data_bits() {
    // 0110_1000: the last one bit is the fifth; the three zeros after it are padding.
    let mut lex = BitLexer::new(&[0b1010_0000, 0b0110_1000]);
    let bits = lex.collect_bits();
    let expected = vec![true, false, true, false, false, false, false, false, false, true, true, false, true];
    assert_eq!(bits, expected);
    assert_eq!(lex.next_bit(), None);
    assert_eq!(lex.next_bit(), None);
    // A zero last byte is all padding.
    assert_eq!(BitLexer::new(&[0b1000_0001, 0]).collect_bits().len(), 8);
    assert_eq!(BitLexer::new(&[]).collect_bits(), Vec::<bool>::new());
}
