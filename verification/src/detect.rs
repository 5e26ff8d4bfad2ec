//! Which language features a Whitespace program uses.
use vstd::prelude::*;

use crate::ws::bit_pack::{bit_stream, decode_all, BitLexer};
use crate::ws::inst::{decode_opcodes_recovering, decode_recovering, opcode_feature, Feature, Features, Opcode};
use crate::ws::text::is_utf8;
use crate::ws::token::{lex_text, text_tokens, Token};

verus! {

/// A fault met in reading a program.
#[derive(Clone, Copy, Debug, PartialEq, Eq, Structural)]
pub enum DetectError {
    /// The program text is not valid UTF-8.
    InvalidUtf8,
    /// No instruction can be read at this token.
    UnreadableInstruction { token: usize },
}

/// The tokens of a program: of a bit-packed one when `packed`, else of its
/// text, which must be valid UTF-8 unless `ascii`.
pub open spec fn program_tokens(src: Seq<u8>, packed: bool, ascii: bool) -> Result<
    Seq<Token>,
    DetectError,
> {
    if packed {
        Ok(decode_all(bit_stream(src)))
    } else if !ascii && !vstd::utf8::valid_utf8(src) {
        Err(DetectError::InvalidUtf8)
    } else {
        Ok(text_tokens(src))
    }
}

/// The features that the opcodes `ops` need.
pub open spec fn features_of(ops: Seq<Opcode>) -> Set<Feature> {
    Set::new(|f: Feature| exists|i: int| 0 <= i < ops.len() && opcode_feature(#[trigger] ops[i]) == Some(f))
}

/// The features that the readable instructions of the tokens `ts` need.
pub open spec fn token_features(ts: Seq<Token>) -> Set<Feature> {
    features_of(decode_recovering(ts).0)
}

/// The faults met in reading the tokens `ts`, one for each instruction that
/// cannot be read, in order.
pub open spec fn token_faults(ts: Seq<Token>) -> Seq<DetectError> {
    decode_recovering(ts).1.map_values(|p: int| DetectError::UnreadableInstruction { token: p as usize })
}

/// What reading a program tells: the features that its readable
/// instructions need, and a fault for each instruction that cannot be read.
#[derive(Debug, PartialEq, Eq)]
pub struct Detection {
    pub features: Features,
    pub errors: Vec<DetectError>,
}

/// Reads the tokens of a program: a bit-packed one when `packed`, else its
/// text, checked for UTF-8 unless `ascii`.
pub fn read_tokens(src: &[u8], packed: bool, ascii: bool) -> (r: Result<Vec<Token>, DetectError>)
    ensures
        match r {
            Ok(ts) => program_tokens(src@, packed, ascii) == Ok::<Seq<Token>, DetectError>(ts@),
            Err(e) => program_tokens(src@, packed, ascii) == Err::<Seq<Token>, DetectError>(e),
        },
{
    if packed {
        let mut lex = BitLexer::new(src);
        Ok(lex.collect_tokens())
    } else if !ascii && !is_utf8(src) {
        Err(DetectError::InvalidUtf8)
    } else {
        Ok(lex_text(src))
    }
}

/// The features that a program's readable instructions need, with a fault
/// for each instruction that cannot be read (reading goes on past it), or
/// `InvalidUtf8` when the text is not UTF-8. A program that needs no
/// `Wspace0_3` feature keeps to version 0.2 of the language.
pub fn detect_features(src: &[u8], packed: bool, ascii: bool) -> (r: Result<Detection, DetectError>)
    ensures
        match r {
            Ok(d) => program_tokens(src@, packed, ascii) matches Ok(ts) && d.features@ == token_features(
                ts,
            ) && d.errors@ == token_faults(ts),
            Err(e) => program_tokens(src@, packed, ascii) == Err::<Seq<Token>, DetectError>(e),
        },
{
    let tokens = match read_tokens(src, packed, ascii) {
        Ok(ts) => ts,
        Err(e) => return Err(e),
    };
    let (ops, positions) = decode_opcodes_recovering(&tokens);
    let features = Features::of_opcodes(&ops);
    assert(features@ =~= features_of(ops@));
    let mut errors: Vec<DetectError> = Vec::new();
    let ghost ps = positions@.map_values(|p: usize| p as int);
    let mut i: usize = 0;
    while i < positions.len()
        invariant
            i <= positions@.len(),
            ps == positions@.map_values(|p: usize| p as int),
            errors@ =~= ps.take(i as int).map_values(
                |p: int| DetectError::UnreadableInstruction { token: p as usize },
            ),
        decreases positions@.len() - i,
    {
        errors.push(DetectError::UnreadableInstruction { token: positions[i] });
        assert(ps[i as int] == positions@[i as int] as int);
        assert(ps.take(i + 1) =~= ps.take(i as int).push(ps[i as int]));
        i = i + 1;
    }
    assert(ps.take(ps.len() as int) =~= ps);
    Ok(Detection { features, errors })
}

} // verus!
