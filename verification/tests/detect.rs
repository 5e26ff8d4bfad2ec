use yspace2::detect::{detect_features, read_tokens, DetectError, Detection};
use yspace2::ws::inst::decode_opcodes_recovering;
use yspace2::ws::inst::{Feature, Features, Opcode};
use yspace2::ws::tests::{TUTORIAL_BITS, TUTORIAL_TOKENS};
use yspace2::ws::token::Token::{L, S, T};

fn text(tokens: &[yspace2::ws::token::Token]) -> Vec<u8> {
    tokens
        .iter()
        .map(|t| match t {
            S => b' ',
            T => b'\t',
            L => b'\n',
        })
        .collect()
}

#[test]
fn tutorial_needs_no_feature() {
    let none = Detection { features: Features::empty(), errors: vec![] };
    assert_eq!(detect_features(&TUTORIAL_BITS, true, false), Ok(none));
    let src = text(&TUTORIAL_TOKENS);
    let none = Detection { features: Features::empty(), errors: vec![] };
    assert_eq!(detect_features(&src, false, false), Ok(none));
    assert_eq!(read_tokens(&TUTORIAL_BITS, true, false), Ok(TUTORIAL_TOKENS.to_vec()));
}

#[test]
fn extension_instructions_are_detected() {
    // copy 1, shuffle, dump_trace, end
    let mut ts = Opcode::Copy.tokens();
    ts.extend([S, T, L]);
    ts.extend(Opcode::Shuffle.tokens());
    ts.extend(Opcode::DumpTrace.tokens());
    ts.extend(Opcode::End.tokens());
    let d = detect_features(&text(&ts), false, false).unwrap();
    assert!(d.errors.is_empty());
    let fs = d.features;
    assert_eq!(fs.to_vec(), vec![Feature::Wspace0_3, Feature::Shuffle, Feature::DumpTrace]);
    assert!(fs.contains(Feature::Wspace0_3));
    assert!(!fs.contains(Feature::DumpStackHeap));
}

#[test]
fn commentary_is_skipped_in_text() {
    let src = "push\u{e9}  \t\n\t\n  \t\t end\n\n\n".as_bytes();
    let d = detect_features(src, false, false).unwrap();
    assert_eq!(d, Detection { features: Features::empty(), errors: vec![] });
}

#[test]
fn text_must_be_utf8_unless_ascii() {
    let src = [0xff, b'\n', b'\n', b'\n'];
    assert_eq!(detect_features(&src, false, false), Err(DetectError::InvalidUtf8));
    assert_eq!(detect_features(&src, false, true), Ok(Detection { features: Features::empty(), errors: vec![] }));
    assert_eq!(read_tokens(&src, false, true), Ok(vec![L, L, L]));
    // An overlong encoding is not UTF-8 either.
    assert_eq!(read_tokens(&[0xc0, 0x80], false, false), Err(DetectError::InvalidUtf8));
}

#[test]
fn unreadable_instruction_is_reported_where_it_starts() {
    let fault = |p| DetectError::UnreadableInstruction { token: p };
    // copy 1, then T T L, which starts no instruction: the feature of copy is kept.
    let src = text(&[S, T, S, S, T, L, T, T, L]);
    let d = detect_features(&src, false, false).unwrap();
    assert_eq!(d.errors, vec![fault(6)]);
    assert_eq!(d.features.to_vec(), vec![Feature::Wspace0_3]);
    // end, then T T L.
    let src = text(&[L, L, L, T, T, L]);
    assert_eq!(detect_features(&src, false, false).unwrap().errors, vec![fault(3)]);
    // push with its argument never closed takes the rest.
    let src = text(&[S, S, S, T]);
    let d = detect_features(&src, false, false).unwrap();
    assert_eq!(d.errors, vec![fault(0)]);
    assert_eq!(d.features, Features::empty());
}

#[test]
fn reading_goes_on_past_unreadable_instructions() {
    // T T L (bad), push 1, S T T L (bad), shuffle, then an unfinished L L S S.
    let ts = vec![T, T, L, S, S, S, T, L, S, T, T, L, S, T, T, S, L, L, S, S];
    let (ops, errs) = decode_opcodes_recovering(&ts);
    assert_eq!(ops, vec![Opcode::Push, Opcode::Shuffle]);
    assert_eq!(errs, vec![0, 8, 16]);
    let d = detect_features(&text(&ts), false, false).unwrap();
    assert_eq!(d.features.to_vec(), vec![Feature::Shuffle]);
    assert_eq!(d.errors.len(), 3);
    // A stream that reads cleanly reads the same either way.
    let (ops, errs) = decode_opcodes_recovering(&TUTORIAL_TOKENS.to_vec());
    assert!(errs.is_empty());
    assert_eq!(Ok(ops), yspace2::ws::inst::decode_opcodes_of(&TUTORIAL_TOKENS.to_vec()));
}
