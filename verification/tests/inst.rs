use yspace2::ws::bits::Bits;
use yspace2::ws::inst::{decode_opcodes_of, opcode_at, Feature, Features, Inst, Int, Opcode, Sign};
use yspace2::ws::token::lex_text;
use yspace2::ws::tests::{tutorial_insts, TUTORIAL_STL, TUTORIAL_TOKENS};
use yspace2::ws::token::Token::{self, L, S, T};

fn bits(b: &[u8]) -> Bits {
    Bits::from_bools(&b.iter().map(|&x| x == 1).collect::<Vec<_>>())
}

fn bit_tokens(b: &Bits) -> Vec<Token> {
    b.to_bools().into_iter().map(|x| if x { T } else { S }).collect()
}

#[test]
fn tutorial_tokens_follow_opcode_table() {
    let mut pos = 0;
    for inst in tutorial_insts() {
        let mut expected = inst.opcode().tokens();
        match &inst {
            Inst::Push(i) | Inst::Copy(i) | Inst::Slide(i) => {
                expected.push(if i.sign == Sign::Neg { T } else { S });
                expected.extend(bit_tokens(&i.bits));
                expected.push(L);
            }
            Inst::Label(u) | Inst::Call(u) | Inst::Jmp(u) | Inst::Jz(u) | Inst::Jn(u) => {
                expected.extend(bit_tokens(&u.bits));
                expected.push(L);
            }
            _ => {}
        }
        assert_eq!(&TUTORIAL_TOKENS[pos..pos + expected.len()], &expected[..], "{:?}", inst);
        pos += expected.len();
    }
    assert_eq!(pos, TUTORIAL_TOKENS.len());
}

#[test]
fn opcode_table_entries() {
    assert_eq!(Inst::Dup.opcode(), Opcode::Dup);
    assert_eq!(Inst::Push(Int { sign: Sign::Neg, bits: bits(&[1]) }).opcode(), Opcode::Push);
    assert_eq!(Opcode::Push.tokens(), vec![S, S]);
    assert_eq!(Opcode::Shuffle.tokens(), vec![S, T, T, S]);
    assert_eq!(Opcode::DumpHeap.tokens(), vec![L, L, S, S, T]);
    assert_eq!(Opcode::Copy.feature(), Some(Feature::Wspace0_3));
    assert_eq!(Opcode::Slide.feature(), Some(Feature::Wspace0_3));
    assert_eq!(Opcode::Shuffle.feature(), Some(Feature::Shuffle));
    assert_eq!(Opcode::DumpStack.feature(), Some(Feature::DumpStackHeap));
    assert_eq!(Opcode::DumpTrace.feature(), Some(Feature::DumpTrace));
    assert_eq!(Opcode::Add.feature(), None);
}

#[test]
fn opcode_tokens_are_prefix_free() {
    let all = [
        Opcode::Push, Opcode::Dup, Opcode::Copy, Opcode::Swap, Opcode::Drop, Opcode::Slide,
        Opcode::Add, Opcode::Sub, Opcode::Mul, Opcode::Div, Opcode::Mod, Opcode::Store,
        Opcode::Retrieve, Opcode::Label, Opcode::Call, Opcode::Jmp, Opcode::Jz, Opcode::Jn,
        Opcode::Ret, Opcode::End, Opcode::Printc, Opcode::Printi, Opcode::Readc, Opcode::Readi,
        Opcode::Shuffle, Opcode::DumpStack, Opcode::DumpHeap, Opcode::DumpTrace,
    ];
    for a in all {
        for b in all {
            let (ta, tb) = (a.tokens(), b.tokens());
            if a != b {
                assert!(!(ta.len() <= tb.len() && tb[..ta.len()] == ta[..]), "{:?} {:?}", a, b);
            }
        }
    }
}

#[test]
fn feature_sets() {
    let mut fs = Features::empty();
    assert!(!fs.contains(Feature::Wspace0_3));
    assert_eq!(fs.to_vec(), vec![]);
    fs.insert(Feature::DumpTrace);
    fs.insert(Feature::Shuffle);
    fs.insert(Feature::Shuffle);
    assert!(fs.contains(Feature::Shuffle));
    assert!(!fs.contains(Feature::DumpStackHeap));
    assert_eq!(fs.to_vec(), vec![Feature::Shuffle, Feature::DumpTrace]);
    assert_eq!(
        Features::all().to_vec(),
        vec![Feature::Wspace0_3, Feature::Shuffle, Feature::DumpStackHeap, Feature::DumpTrace]
    );
}

#[test]
fn features_of_tutorial_and_extended_programs() {
    let ops: Vec<Opcode> = tutorial_insts().iter().map(|i| i.opcode()).collect();
    assert_eq!(Features::of_opcodes(&ops), Features::empty());
    let ops = vec![Opcode::Push, Opcode::Slide, Opcode::DumpHeap, Opcode::End];
    let fs = Features::of_opcodes(&ops);
    assert_eq!(fs.to_vec(), vec![Feature::Wspace0_3, Feature::DumpStackHeap]);
}

#[test]
fn decodes_tutorial_opcodes() {
    let ops: Vec<Opcode> = tutorial_insts().iter().map(|i| i.opcode()).collect();
    assert_eq!(decode_opcodes_of(&TUTORIAL_TOKENS.to_vec()), Ok(ops));
}

#[test]
fn decode_reports_first_unreadable_instruction() {
    // Dup, then T T L: no opcode.
    assert_eq!(decode_opcodes_of(&vec![S, L, S, T, T, L]), Err(3));
    // Push with an unclosed argument.
    assert_eq!(decode_opcodes_of(&vec![L, L, L, S, S, S, T]), Err(3));
    // A lone token is no instruction.
    assert_eq!(decode_opcodes_of(&vec![S]), Err(0));
    assert_eq!(decode_opcodes_of(&vec![]), Ok(vec![]));
    // Push with an empty argument: just the closing line feed.
    assert_eq!(decode_opcodes_of(&vec![S, S, L, L, L, L]), Ok(vec![Opcode::Push, Opcode::End]));
}

#[test]
fn opcode_at_reads_table() {
    let ts = vec![S, L, L, L, L, S, S, T, T];
    assert_eq!(opcode_at(&ts, 0), Some(Opcode::Drop));
    assert_eq!(opcode_at(&ts, 3), Some(Opcode::DumpHeap));
    assert_eq!(opcode_at(&ts, 7), None);
    assert_eq!(opcode_at(&ts, 9), None);
    assert!(Opcode::Jz.takes_arg());
    assert!(!Opcode::Ret.takes_arg());
}

#[test]
fn lexes_program_text() {
    assert_eq!(lex_text(b"  \t\n#comment\n"), vec![S, S, T, L, L]);
    assert_eq!(lex_text(b""), vec![]);
    assert_eq!(lex_text("a\u{e9} \t".as_bytes()), vec![S, T]);
}

#[test]
fn instruction_with_argument_reads_back() {
    // Jz with label 101, then Ret.
    let mut ts = Opcode::Jz.tokens();
    ts.extend([T, S, T, L]);
    ts.extend(Opcode::Ret.tokens());
    assert_eq!(decode_opcodes_of(&ts), Ok(vec![Opcode::Jz, Opcode::Ret]));
}

#[test]
fn tutorial_letters_are_its_tokens() {
    let letters: Vec<Token> = TUTORIAL_STL
        .chars()
        .filter_map(|c| match c {
            'S' => Some(S),
            'T' => Some(T),
            'L' => Some(L),
            _ => None,
        })
        .collect();
    assert_eq!(letters, TUTORIAL_TOKENS.to_vec());
}

#[test]
fn opcode_names_are_snake_case() {
    assert_eq!(Opcode::Push.name(), "push");
    assert_eq!(Opcode::Printc.name(), "printc");
    assert_eq!(Opcode::DumpStack.name(), "dump_stack");
    assert_eq!(Opcode::DumpTrace.name(), "dump_trace");
    assert_eq!(Opcode::Jz.name(), "jz");
}

#[test]
fn instructions_as_text() {
    let insts = tutorial_insts();
    assert_eq!(insts[0].to_string(), "push +1");
    assert_eq!(insts[1].to_string(), "label 01000011");
    assert_eq!(insts[2].to_string(), "dup");
    assert_eq!(insts[4].to_string(), "push +1010");
    assert_eq!(insts[11].to_string(), "jz 01000101");
    assert_eq!(insts[15].to_string(), "end");
    assert_eq!(Inst::Slide(Int { sign: Sign::Neg, bits: bits(&[1, 0]) }).to_string(), "slide -10");
    assert_eq!(Inst::Push(Int { sign: Sign::Empty, bits: bits(&[]) }).to_string(), "push ");
    assert_eq!(Inst::DumpHeap.to_string(), "dump_heap");
}
