//! The Whitespace instruction set.
use vstd::prelude::*;

use vstd::string::StringExecFns;

use crate::ws::bits::{bitvec_get, bitvec_len, bits_of, Bits};
use crate::ws::int_literal::bit_chars;
use crate::ws::text::string_push;
use crate::ws::token::Token;

verus! {

/// An integer argument: its sign and its magnitude bits.
#[derive(Clone, Debug, PartialEq, Eq)]
pub struct Int {
    pub sign: Sign,
    pub bits: Bits,
}

/// The sign of an integer argument.
#[derive(Clone, Copy, Debug, PartialEq, Eq, Structural)]
pub enum Sign {
    Pos,
    Neg,
    Empty,
}

/// An unsigned argument (a label).
#[derive(Clone, Debug, PartialEq, Eq)]
pub struct Uint {
    pub bits: Bits,
}

/// A language feature beyond the original instruction set.
#[derive(Clone, Copy, Debug, PartialEq, Eq, Structural, Hash)]
pub enum Feature {
    Wspace0_3,
    Shuffle,
    DumpStackHeap,
    DumpTrace,
}

/// An instruction's operation, without its argument.
#[derive(Clone, Copy, Debug, PartialEq, Eq, Structural, Hash, PartialOrd, Ord)]
pub enum Opcode {
    Push,
    Dup,
    Copy,
    Swap,
    Drop,
    Slide,
    Add,
    Sub,
    Mul,
    Div,
    Mod,
    Store,
    Retrieve,
    Label,
    Call,
    Jmp,
    Jz,
    Jn,
    Ret,
    End,
    Printc,
    Printi,
    Readc,
    Readi,
    Shuffle,
    DumpStack,
    DumpHeap,
    DumpTrace,
}

/// An instruction.
#[derive(Clone, Debug, PartialEq, Eq)]
pub enum Inst {
    Push(Int),
    Dup,
    Copy(Int),
    Swap,
    Drop,
    Slide(Int),
    Add,
    Sub,
    Mul,
    Div,
    Mod,
    Store,
    Retrieve,
    Label(Uint),
    Call(Uint),
    Jmp(Uint),
    Jz(Uint),
    Jn(Uint),
    Ret,
    End,
    Printc,
    Printi,
    Readc,
    Readi,
    Shuffle,
    DumpStack,
    DumpHeap,
    DumpTrace,
}


/// A set of features.
#[derive(Clone, Copy, Debug, PartialEq, Eq, Structural)]
pub struct Features {
    wspace0_3: bool,
    shuffle: bool,
    dump_stack_heap: bool,
    dump_trace: bool,
}

/// Every feature, in declaration order.
pub open spec fn feature_order() -> Seq<Feature> {
    seq![Feature::Wspace0_3, Feature::Shuffle, Feature::DumpStackHeap, Feature::DumpTrace]
}

impl Features {
    closed spec fn has(self, f: Feature) -> bool {
        match f {
            Feature::Wspace0_3 => self.wspace0_3,
            Feature::Shuffle => self.shuffle,
            Feature::DumpStackHeap => self.dump_stack_heap,
            Feature::DumpTrace => self.dump_trace,
        }
    }

    /// No feature.
    pub fn empty() -> (fs: Features)
        ensures
            fs@ == Set::<Feature>::empty(),
    {
        let fs = Features {
            wspace0_3: false,
            shuffle: false,
            dump_stack_heap: false,
            dump_trace: false,
        };
        assert(fs@ =~= Set::<Feature>::empty());
        fs
    }

    /// Every feature.
    pub fn all() -> (fs: Features)
        ensures
            fs@ == Set::<Feature>::full(),
    {
        let fs = Features { wspace0_3: true, shuffle: true, dump_stack_heap: true, dump_trace: true };
        assert(fs@ =~= Set::<Feature>::full());
        fs
    }

    /// Adds `f`.
    pub fn insert(&mut self, f: Feature)
        ensures
            final(self)@ == old(self)@.insert(f),
    {
        match f {
            Feature::Wspace0_3 => self.wspace0_3 = true,
            Feature::Shuffle => self.shuffle = true,
            Feature::DumpStackHeap => self.dump_stack_heap = true,
            Feature::DumpTrace => self.dump_trace = true,
        }
        assert(self@ =~= old(self)@.insert(f));
    }

    /// Is `f` in the set?
    pub fn contains(&self, f: Feature) -> (b: bool)
        ensures
            b == self@.contains(f),
    {
        match f {
            Feature::Wspace0_3 => self.wspace0_3,
            Feature::Shuffle => self.shuffle,
            Feature::DumpStackHeap => self.dump_stack_heap,
            Feature::DumpTrace => self.dump_trace,
        }
    }

    /// The features in the set, in declaration order.
    pub fn to_vec(&self) -> (v: Vec<Feature>)
        ensures
            v@ == feature_order().filter(|f: Feature| self@.contains(f)),
    {
        let mut v: Vec<Feature> = Vec::new();
        if self.wspace0_3 {
            v.push(Feature::Wspace0_3);
        }
        if self.shuffle {
            v.push(Feature::Shuffle);
        }
        if self.dump_stack_heap {
            v.push(Feature::DumpStackHeap);
        }
        if self.dump_trace {
            v.push(Feature::DumpTrace);
        }
        proof {
            let p = |f: Feature| self@.contains(f);
            let o = feature_order();
            reveal_with_fuel(Seq::<_>::filter, 5);
            assert(o.take(4) =~= o);
            assert(o.take(3) =~= o.take(4).drop_last());
            assert(o.take(2) =~= o.take(3).drop_last());
            assert(o.take(1) =~= o.take(2).drop_last());
            assert(o.take(0) =~= o.take(1).drop_last());
            assert(o.take(0).filter(p) =~= Seq::<Feature>::empty());
            assert(v@ =~= o.filter(p));
        }
        v
    }

    /// The features that the opcodes `ops` need.
    pub fn of_opcodes(ops: &Vec<Opcode>) -> (fs: Features)
        ensures
            forall|f: Feature|
                fs@.contains(f) <==> exists|i: int|
                    0 <= i < ops@.len() && opcode_feature(#[trigger] ops@[i]) == Some(f),
    {
        let mut fs = Features::empty();
        let mut i: usize = 0;
        while i < ops.len()
            invariant
                i <= ops@.len(),
                forall|f: Feature|
                    fs@.contains(f) <==> exists|j: int|
                        0 <= j < i && opcode_feature(#[trigger] ops@[j]) == Some(f),
            decreases ops@.len() - i,
        {
            let ghost old_fs = fs@;
            if let Some(f) = ops[i].feature() {
                fs.insert(f);
            }
            assert forall|g: Feature|
                fs@.contains(g) <==> exists|j: int|
                    0 <= j < i + 1 && opcode_feature(#[trigger] ops@[j]) == Some(g) by {
                if fs@.contains(g) && !old_fs.contains(g) {
                    assert(opcode_feature(ops@[i as int]) == Some(g));
                }
                if exists|j: int| 0 <= j < i + 1 && opcode_feature(#[trigger] ops@[j]) == Some(g) {
                    let j = choose|j: int| 0 <= j < i + 1 && opcode_feature(#[trigger] ops@[j]) == Some(g);
                    if j < i {
                        assert(old_fs.contains(g));
                    }
                }
            }
            i = i + 1;
        }
        fs
    }
}

impl View for Features {
    type V = Set<Feature>;

    closed spec fn view(&self) -> Set<Feature> {
        Set::new(|f: Feature| self.has(f))
    }
}

/// The opcode whose tokens start `ts`, if any. The opcodes' token sequences
/// form a prefix-free code, so at most one does.
pub open spec fn opcode_of_prefix(ts: Seq<Token>) -> Option<Opcode> {
    if ts.len() < 2 {
        None
    } else {
        match (ts[0], ts[1]) {
            (Token::S, Token::S) => Some(Opcode::Push),
            (Token::S, Token::L) => if ts.len() < 3 {
                None
            } else {
                match ts[2] {
                    Token::S => Some(Opcode::Dup),
                    Token::T => Some(Opcode::Swap),
                    Token::L => Some(Opcode::Drop),
                }
            },
            (Token::S, Token::T) => if ts.len() < 3 {
                None
            } else {
                match ts[2] {
                    Token::S => Some(Opcode::Copy),
                    Token::L => Some(Opcode::Slide),
                    Token::T => if ts.len() >= 4 && ts[3] == Token::S {
                        Some(Opcode::Shuffle)
                    } else {
                        None
                    },
                }
            },
            (Token::T, Token::S) => if ts.len() < 4 {
                None
            } else {
                match (ts[2], ts[3]) {
                    (Token::S, Token::S) => Some(Opcode::Add),
                    (Token::S, Token::T) => Some(Opcode::Sub),
                    (Token::S, Token::L) => Some(Opcode::Mul),
                    (Token::T, Token::S) => Some(Opcode::Div),
                    (Token::T, Token::T) => Some(Opcode::Mod),
                    _ => None,
                }
            },
            (Token::T, Token::T) => if ts.len() < 3 {
                None
            } else {
                match ts[2] {
                    Token::S => Some(Opcode::Store),
                    Token::T => Some(Opcode::Retrieve),
                    Token::L => None,
                }
            },
            (Token::T, Token::L) => if ts.len() < 4 {
                None
            } else {
                match (ts[2], ts[3]) {
                    (Token::S, Token::S) => Some(Opcode::Printc),
                    (Token::S, Token::T) => Some(Opcode::Printi),
                    (Token::T, Token::S) => Some(Opcode::Readc),
                    (Token::T, Token::T) => Some(Opcode::Readi),
                    _ => None,
                }
            },
            (Token::L, Token::S) => if ts.len() < 3 {
                None
            } else {
                match ts[2] {
                    Token::S => Some(Opcode::Label),
                    Token::T => Some(Opcode::Call),
                    Token::L => Some(Opcode::Jmp),
                }
            },
            (Token::L, Token::T) => if ts.len() < 3 {
                None
            } else {
                match ts[2] {
                    Token::S => Some(Opcode::Jz),
                    Token::T => Some(Opcode::Jn),
                    Token::L => Some(Opcode::Ret),
                }
            },
            (Token::L, Token::L) => if ts.len() < 3 {
                None
            } else {
                match ts[2] {
                    Token::L => Some(Opcode::End),
                    Token::T => Some(Opcode::DumpTrace),
                    Token::S => if ts.len() >= 5 && ts[3] == Token::S && ts[4] == Token::S {
                        Some(Opcode::DumpStack)
                    } else if ts.len() >= 5 && ts[3] == Token::S && ts[4] == Token::T {
                        Some(Opcode::DumpHeap)
                    } else {
                        None
                    },
                }
            },
        }
    }
}

/// `a` starts `b`.
pub open spec fn is_prefix(a: Seq<Token>, b: Seq<Token>) -> bool {
    a.len() <= b.len() && b.subrange(0, a.len() as int) == a
}

/// Reading an opcode's tokens, whatever follows them, gives back that opcode.
pub proof fn lemma_opcode_of_tokens(op: Opcode, rest: Seq<Token>)
    ensures
        opcode_of_prefix(opcode_tokens(op) + rest) == Some(op),
{
    let ts = opcode_tokens(op) + rest;
    assert(forall|i: int| 0 <= i < opcode_tokens(op).len() ==> ts[i] == opcode_tokens(op)[i]);
}

/// No opcode's tokens start another opcode's tokens: an instruction stream
/// can be read unambiguously.
pub proof fn law_opcode_tokens_prefix_free(a: Opcode, b: Opcode)
    requires
        a != b,
    ensures
        !is_prefix(opcode_tokens(a), opcode_tokens(b)),
{
    let ta = opcode_tokens(a);
    let tb = opcode_tokens(b);
    if is_prefix(ta, tb) {
        let rest = tb.skip(ta.len() as int);
        assert(ta + rest =~= tb);
        lemma_opcode_of_tokens(a, rest);
        lemma_opcode_of_tokens(b, Seq::empty());
        assert(tb + Seq::<Token>::empty() =~= tb);
    }
}


/// The opcode whose tokens start the tokens of `ts` from `pos` on, if any.
pub fn opcode_at(ts: &Vec<Token>, pos: usize) -> (op: Option<Opcode>)
    requires
        pos <= ts@.len(),
    ensures
        op == opcode_of_prefix(ts@.skip(pos as int)),
{
    let ghost u = ts@.skip(pos as int);
    let n = ts.len() - pos;
    if n < 2 {
        return None;
    }
    assert(u[0] == ts@[pos as int] && u[1] == ts@[pos + 1]);
    if n >= 3 {
        assert(u[2] == ts@[pos + 2]);
    }
    if n >= 4 {
        assert(u[3] == ts@[pos + 3]);
    }
    if n >= 5 {
        assert(u[4] == ts@[pos + 4]);
    }
    match (ts[pos], ts[pos + 1]) {
        (Token::S, Token::S) => Some(Opcode::Push),
        (Token::S, Token::L) => if n < 3 {
            None
        } else {
            match ts[pos + 2] {
                Token::S => Some(Opcode::Dup),
                Token::T => Some(Opcode::Swap),
                Token::L => Some(Opcode::Drop),
            }
        },
        (Token::S, Token::T) => if n < 3 {
            None
        } else {
            match ts[pos + 2] {
                Token::S => Some(Opcode::Copy),
                Token::L => Some(Opcode::Slide),
                Token::T => if n >= 4 && ts[pos + 3] == Token::S {
                    Some(Opcode::Shuffle)
                } else {
                    None
                },
            }
        },
        (Token::T, Token::S) => if n < 4 {
            None
        } else {
            match (ts[pos + 2], ts[pos + 3]) {
                (Token::S, Token::S) => Some(Opcode::Add),
                (Token::S, Token::T) => Some(Opcode::Sub),
                (Token::S, Token::L) => Some(Opcode::Mul),
                (Token::T, Token::S) => Some(Opcode::Div),
                (Token::T, Token::T) => Some(Opcode::Mod),
                _ => None,
            }
        },
        (Token::T, Token::T) => if n < 3 {
            None
        } else {
            match ts[pos + 2] {
                Token::S => Some(Opcode::Store),
                Token::T => Some(Opcode::Retrieve),
                Token::L => None,
            }
        },
        (Token::T, Token::L) => if n < 4 {
            None
        } else {
            match (ts[pos + 2], ts[pos + 3]) {
                (Token::S, Token::S) => Some(Opcode::Printc),
                (Token::S, Token::T) => Some(Opcode::Printi),
                (Token::T, Token::S) => Some(Opcode::Readc),
                (Token::T, Token::T) => Some(Opcode::Readi),
                _ => None,
            }
        },
        (Token::L, Token::S) => if n < 3 {
            None
        } else {
            match ts[pos + 2] {
                Token::S => Some(Opcode::Label),
                Token::T => Some(Opcode::Call),
                Token::L => Some(Opcode::Jmp),
            }
        },
        (Token::L, Token::T) => if n < 3 {
            None
        } else {
            match ts[pos + 2] {
                Token::S => Some(Opcode::Jz),
                Token::T => Some(Opcode::Jn),
                Token::L => Some(Opcode::Ret),
            }
        },
        (Token::L, Token::L) => if n < 3 {
            None
        } else {
            match ts[pos + 2] {
                Token::L => Some(Opcode::End),
                Token::T => Some(Opcode::DumpTrace),
                Token::S => if n >= 5 && ts[pos + 3] == Token::S && ts[pos + 4] == Token::S {
                    Some(Opcode::DumpStack)
                } else if n >= 5 && ts[pos + 3] == Token::S && ts[pos + 4] == Token::T {
                    Some(Opcode::DumpHeap)
                } else {
                    None
                },
            }
        },
    }
}

/// The opcode read at the front of `ts` has all its tokens there.
pub proof fn lemma_opcode_of_prefix_tokens(ts: Seq<Token>)
    ensures
        opcode_of_prefix(ts) matches Some(op) ==> is_prefix(opcode_tokens(op), ts),
{
    if let Some(op) = opcode_of_prefix(ts) {
        assert(ts.subrange(0, opcode_tokens(op).len() as int) =~= opcode_tokens(op));
    }
}

/// Reading the front of a token stream finds exactly the opcode whose tokens
/// start it, and none when no opcode's tokens do.
pub proof fn law_opcode_of_prefix_exact(ts: Seq<Token>, op: Opcode)
    ensures
        opcode_of_prefix(ts) == Some(op) <==> is_prefix(opcode_tokens(op), ts),
{
    lemma_opcode_of_prefix_tokens(ts);
    if is_prefix(opcode_tokens(op), ts) {
        let rest = ts.skip(opcode_tokens(op).len() as int);
        assert(opcode_tokens(op) + rest =~= ts);
        lemma_opcode_of_tokens(op, rest);
    }
}


/// The Whitespace instruction table, written out: for each opcode, the tokens
/// that introduce it (which read back as that opcode), whether it takes an
/// argument, the feature beyond version 0.2 that it needs, and its name in
/// assembly, the snake case of its variant's name.
pub proof fn law_instruction_table(op: Opcode)
    ensures
        match op {
            Opcode::Push => {
                &&& opcode_tokens(op) == seq![Token::S, Token::S]
                &&& opcode_of_prefix(seq![Token::S, Token::S]) == Some(Opcode::Push)
                &&& has_arg(op)
                &&& opcode_feature(op) == None::<Feature>
                &&& opcode_name(op)@ == seq!['p', 'u', 's', 'h']
            },
            Opcode::Dup => {
                &&& opcode_tokens(op) == seq![Token::S, Token::L, Token::S]
                &&& opcode_of_prefix(seq![Token::S, Token::L, Token::S]) == Some(Opcode::Dup)
                &&& !has_arg(op)
                &&& opcode_feature(op) == None::<Feature>
                &&& opcode_name(op)@ == seq!['d', 'u', 'p']
            },
            Opcode::Copy => {
                &&& opcode_tokens(op) == seq![Token::S, Token::T, Token::S]
                &&& opcode_of_prefix(seq![Token::S, Token::T, Token::S]) == Some(Opcode::Copy)
                &&& has_arg(op)
                &&& opcode_feature(op) == Some(Feature::Wspace0_3)
                &&& opcode_name(op)@ == seq!['c', 'o', 'p', 'y']
            },
            Opcode::Swap => {
                &&& opcode_tokens(op) == seq![Token::S, Token::L, Token::T]
                &&& opcode_of_prefix(seq![Token::S, Token::L, Token::T]) == Some(Opcode::Swap)
                &&& !has_arg(op)
                &&& opcode_feature(op) == None::<Feature>
                &&& opcode_name(op)@ == seq!['s', 'w', 'a', 'p']
            },
            Opcode::Drop => {
                &&& opcode_tokens(op) == seq![Token::S, Token::L, Token::L]
                &&& opcode_of_prefix(seq![Token::S, Token::L, Token::L]) == Some(Opcode::Drop)
                &&& !has_arg(op)
                &&& opcode_feature(op) == None::<Feature>
                &&& opcode_name(op)@ == seq!['d', 'r', 'o', 'p']
            },
            Opcode::Slide => {
                &&& opcode_tokens(op) == seq![Token::S, Token::T, Token::L]
                &&& opcode_of_prefix(seq![Token::S, Token::T, Token::L]) == Some(Opcode::Slide)
                &&& has_arg(op)
                &&& opcode_feature(op) == Some(Feature::Wspace0_3)
                &&& opcode_name(op)@ == seq!['s', 'l', 'i', 'd', 'e']
            },
            Opcode::Add => {
                &&& opcode_tokens(op) == seq![Token::T, Token::S, Token::S, Token::S]
                &&& opcode_of_prefix(seq![Token::T, Token::S, Token::S, Token::S]) == Some(Opcode::Add)
                &&& !has_arg(op)
                &&& opcode_feature(op) == None::<Feature>
                &&& opcode_name(op)@ == seq!['a', 'd', 'd']
            },
            Opcode::Sub => {
                &&& opcode_tokens(op) == seq![Token::T, Token::S, Token::S, Token::T]
                &&& opcode_of_prefix(seq![Token::T, Token::S, Token::S, Token::T]) == Some(Opcode::Sub)
                &&& !has_arg(op)
                &&& opcode_feature(op) == None::<Feature>
                &&& opcode_name(op)@ == seq!['s', 'u', 'b']
            },
            Opcode::Mul => {
                &&& opcode_tokens(op) == seq![Token::T, Token::S, Token::S, Token::L]
                &&& opcode_of_prefix(seq![Token::T, Token::S, Token::S, Token::L]) == Some(Opcode::Mul)
                &&& !has_arg(op)
                &&& opcode_feature(op) == None::<Feature>
                &&& opcode_name(op)@ == seq!['m', 'u', 'l']
            },
            Opcode::Div => {
                &&& opcode_tokens(op) == seq![Token::T, Token::S, Token::T, Token::S]
                &&& opcode_of_prefix(seq![Token::T, Token::S, Token::T, Token::S]) == Some(Opcode::Div)
                &&& !has_arg(op)
                &&& opcode_feature(op) == None::<Feature>
                &&& opcode_name(op)@ == seq!['d', 'i', 'v']
            },
            Opcode::Mod => {
                &&& opcode_tokens(op) == seq![Token::T, Token::S, Token::T, Token::T]
                &&& opcode_of_prefix(seq![Token::T, Token::S, Token::T, Token::T]) == Some(Opcode::Mod)
                &&& !has_arg(op)
                &&& opcode_feature(op) == None::<Feature>
                &&& opcode_name(op)@ == seq!['m', 'o', 'd']
            },
            Opcode::Store => {
                &&& opcode_tokens(op) == seq![Token::T, Token::T, Token::S]
                &&& opcode_of_prefix(seq![Token::T, Token::T, Token::S]) == Some(Opcode::Store)
                &&& !has_arg(op)
                &&& opcode_feature(op) == None::<Feature>
                &&& opcode_name(op)@ == seq!['s', 't', 'o', 'r', 'e']
            },
            Opcode::Retrieve => {
                &&& opcode_tokens(op) == seq![Token::T, Token::T, Token::T]
                &&& opcode_of_prefix(seq![Token::T, Token::T, Token::T]) == Some(Opcode::Retrieve)
                &&& !has_arg(op)
                &&& opcode_feature(op) == None::<Feature>
                &&& opcode_name(op)@ == seq!['r', 'e', 't', 'r', 'i', 'e', 'v', 'e']
            },
            Opcode::Label => {
                &&& opcode_tokens(op) == seq![Token::L, Token::S, Token::S]
                &&& opcode_of_prefix(seq![Token::L, Token::S, Token::S]) == Some(Opcode::Label)
                &&& has_arg(op)
                &&& opcode_feature(op) == None::<Feature>
                &&& opcode_name(op)@ == seq!['l', 'a', 'b', 'e', 'l']
            },
            Opcode::Call => {
                &&& opcode_tokens(op) == seq![Token::L, Token::S, Token::T]
                &&& opcode_of_prefix(seq![Token::L, Token::S, Token::T]) == Some(Opcode::Call)
                &&& has_arg(op)
                &&& opcode_feature(op) == None::<Feature>
                &&& opcode_name(op)@ == seq!['c', 'a', 'l', 'l']
            },
            Opcode::Jmp => {
                &&& opcode_tokens(op) == seq![Token::L, Token::S, Token::L]
                &&& opcode_of_prefix(seq![Token::L, Token::S, Token::L]) == Some(Opcode::Jmp)
                &&& has_arg(op)
                &&& opcode_feature(op) == None::<Feature>
                &&& opcode_name(op)@ == seq!['j', 'm', 'p']
            },
            Opcode::Jz => {
                &&& opcode_tokens(op) == seq![Token::L, Token::T, Token::S]
                &&& opcode_of_prefix(seq![Token::L, Token::T, Token::S]) == Some(Opcode::Jz)
                &&& has_arg(op)
                &&& opcode_feature(op) == None::<Feature>
                &&& opcode_name(op)@ == seq!['j', 'z']
            },
            Opcode::Jn => {
                &&& opcode_tokens(op) == seq![Token::L, Token::T, Token::T]
                &&& opcode_of_prefix(seq![Token::L, Token::T, Token::T]) == Some(Opcode::Jn)
                &&& has_arg(op)
                &&& opcode_feature(op) == None::<Feature>
                &&& opcode_name(op)@ == seq!['j', 'n']
            },
            Opcode::Ret => {
                &&& opcode_tokens(op) == seq![Token::L, Token::T, Token::L]
                &&& opcode_of_prefix(seq![Token::L, Token::T, Token::L]) == Some(Opcode::Ret)
                &&& !has_arg(op)
                &&& opcode_feature(op) == None::<Feature>
                &&& opcode_name(op)@ == seq!['r', 'e', 't']
            },
            Opcode::End => {
                &&& opcode_tokens(op) == seq![Token::L, Token::L, Token::L]
                &&& opcode_of_prefix(seq![Token::L, Token::L, Token::L]) == Some(Opcode::End)
                &&& !has_arg(op)
                &&& opcode_feature(op) == None::<Feature>
                &&& opcode_name(op)@ == seq!['e', 'n', 'd']
            },
            Opcode::Printc => {
                &&& opcode_tokens(op) == seq![Token::T, Token::L, Token::S, Token::S]
                &&& opcode_of_prefix(seq![Token::T, Token::L, Token::S, Token::S]) == Some(Opcode::Printc)
                &&& !has_arg(op)
                &&& opcode_feature(op) == None::<Feature>
                &&& opcode_name(op)@ == seq!['p', 'r', 'i', 'n', 't', 'c']
            },
            Opcode::Printi => {
                &&& opcode_tokens(op) == seq![Token::T, Token::L, Token::S, Token::T]
                &&& opcode_of_prefix(seq![Token::T, Token::L, Token::S, Token::T]) == Some(Opcode::Printi)
                &&& !has_arg(op)
                &&& opcode_feature(op) == None::<Feature>
                &&& opcode_name(op)@ == seq!['p', 'r', 'i', 'n', 't', 'i']
            },
            Opcode::Readc => {
                &&& opcode_tokens(op) == seq![Token::T, Token::L, Token::T, Token::S]
                &&& opcode_of_prefix(seq![Token::T, Token::L, Token::T, Token::S]) == Some(Opcode::Readc)
                &&& !has_arg(op)
                &&& opcode_feature(op) == None::<Feature>
                &&& opcode_name(op)@ == seq!['r', 'e', 'a', 'd', 'c']
            },
            Opcode::Readi => {
                &&& opcode_tokens(op) == seq![Token::T, Token::L, Token::T, Token::T]
                &&& opcode_of_prefix(seq![Token::T, Token::L, Token::T, Token::T]) == Some(Opcode::Readi)
                &&& !has_arg(op)
                &&& opcode_feature(op) == None::<Feature>
                &&& opcode_name(op)@ == seq!['r', 'e', 'a', 'd', 'i']
            },
            Opcode::Shuffle => {
                &&& opcode_tokens(op) == seq![Token::S, Token::T, Token::T, Token::S]
                &&& opcode_of_prefix(seq![Token::S, Token::T, Token::T, Token::S]) == Some(Opcode::Shuffle)
                &&& !has_arg(op)
                &&& opcode_feature(op) == Some(Feature::Shuffle)
                &&& opcode_name(op)@ == seq!['s', 'h', 'u', 'f', 'f', 'l', 'e']
            },
            Opcode::DumpStack => {
                &&& opcode_tokens(op) == seq![Token::L, Token::L, Token::S, Token::S, Token::S]
                &&& opcode_of_prefix(seq![Token::L, Token::L, Token::S, Token::S, Token::S]) == Some(Opcode::DumpStack)
                &&& !has_arg(op)
                &&& opcode_feature(op) == Some(Feature::DumpStackHeap)
                &&& opcode_name(op)@ == seq!['d', 'u', 'm', 'p', '_', 's', 't', 'a', 'c', 'k']
            },
            Opcode::DumpHeap => {
                &&& opcode_tokens(op) == seq![Token::L, Token::L, Token::S, Token::S, Token::T]
                &&& opcode_of_prefix(seq![Token::L, Token::L, Token::S, Token::S, Token::T]) == Some(Opcode::DumpHeap)
                &&& !has_arg(op)
                &&& opcode_feature(op) == Some(Feature::DumpStackHeap)
                &&& opcode_name(op)@ == seq!['d', 'u', 'm', 'p', '_', 'h', 'e', 'a', 'p']
            },
            Opcode::DumpTrace => {
                &&& opcode_tokens(op) == seq![Token::L, Token::L, Token::T]
                &&& opcode_of_prefix(seq![Token::L, Token::L, Token::T]) == Some(Opcode::DumpTrace)
                &&& !has_arg(op)
                &&& opcode_feature(op) == Some(Feature::DumpTrace)
                &&& opcode_name(op)@ == seq!['d', 'u', 'm', 'p', '_', 't', 'r', 'a', 'c', 'e']
            },
        },
{
    match op {
        Opcode::Push => {
            reveal_strlit("push");
            assert(opcode_name(op)@ =~= seq!['p', 'u', 's', 'h']);
        },
        Opcode::Dup => {
            reveal_strlit("dup");
            assert(opcode_name(op)@ =~= seq!['d', 'u', 'p']);
        },
        Opcode::Copy => {
            reveal_strlit("copy");
            assert(opcode_name(op)@ =~= seq!['c', 'o', 'p', 'y']);
        },
        Opcode::Swap => {
            reveal_strlit("swap");
            assert(opcode_name(op)@ =~= seq!['s', 'w', 'a', 'p']);
        },
        Opcode::Drop => {
            reveal_strlit("drop");
            assert(opcode_name(op)@ =~= seq!['d', 'r', 'o', 'p']);
        },
        Opcode::Slide => {
            reveal_strlit("slide");
            assert(opcode_name(op)@ =~= seq!['s', 'l', 'i', 'd', 'e']);
        },
        Opcode::Add => {
            reveal_strlit("add");
            assert(opcode_name(op)@ =~= seq!['a', 'd', 'd']);
        },
        Opcode::Sub => {
            reveal_strlit("sub");
            assert(opcode_name(op)@ =~= seq!['s', 'u', 'b']);
        },
        Opcode::Mul => {
            reveal_strlit("mul");
            assert(opcode_name(op)@ =~= seq!['m', 'u', 'l']);
        },
        Opcode::Div => {
            reveal_strlit("div");
            assert(opcode_name(op)@ =~= seq!['d', 'i', 'v']);
        },
        Opcode::Mod => {
            reveal_strlit("mod");
            assert(opcode_name(op)@ =~= seq!['m', 'o', 'd']);
        },
        Opcode::Store => {
            reveal_strlit("store");
            assert(opcode_name(op)@ =~= seq!['s', 't', 'o', 'r', 'e']);
        },
        Opcode::Retrieve => {
            reveal_strlit("retrieve");
            assert(opcode_name(op)@ =~= seq!['r', 'e', 't', 'r', 'i', 'e', 'v', 'e']);
        },
        Opcode::Label => {
            reveal_strlit("label");
            assert(opcode_name(op)@ =~= seq!['l', 'a', 'b', 'e', 'l']);
        },
        Opcode::Call => {
            reveal_strlit("call");
            assert(opcode_name(op)@ =~= seq!['c', 'a', 'l', 'l']);
        },
        Opcode::Jmp => {
            reveal_strlit("jmp");
            assert(opcode_name(op)@ =~= seq!['j', 'm', 'p']);
        },
        Opcode::Jz => {
            reveal_strlit("jz");
            assert(opcode_name(op)@ =~= seq!['j', 'z']);
        },
        Opcode::Jn => {
            reveal_strlit("jn");
            assert(opcode_name(op)@ =~= seq!['j', 'n']);
        },
        Opcode::Ret => {
            reveal_strlit("ret");
            assert(opcode_name(op)@ =~= seq!['r', 'e', 't']);
        },
        Opcode::End => {
            reveal_strlit("end");
            assert(opcode_name(op)@ =~= seq!['e', 'n', 'd']);
        },
        Opcode::Printc => {
            reveal_strlit("printc");
            assert(opcode_name(op)@ =~= seq!['p', 'r', 'i', 'n', 't', 'c']);
        },
        Opcode::Printi => {
            reveal_strlit("printi");
            assert(opcode_name(op)@ =~= seq!['p', 'r', 'i', 'n', 't', 'i']);
        },
        Opcode::Readc => {
            reveal_strlit("readc");
            assert(opcode_name(op)@ =~= seq!['r', 'e', 'a', 'd', 'c']);
        },
        Opcode::Readi => {
            reveal_strlit("readi");
            assert(opcode_name(op)@ =~= seq!['r', 'e', 'a', 'd', 'i']);
        },
        Opcode::Shuffle => {
            reveal_strlit("shuffle");
            assert(opcode_name(op)@ =~= seq!['s', 'h', 'u', 'f', 'f', 'l', 'e']);
        },
        Opcode::DumpStack => {
            reveal_strlit("dump_stack");
            assert(opcode_name(op)@ =~= seq!['d', 'u', 'm', 'p', '_', 's', 't', 'a', 'c', 'k']);
        },
        Opcode::DumpHeap => {
            reveal_strlit("dump_heap");
            assert(opcode_name(op)@ =~= seq!['d', 'u', 'm', 'p', '_', 'h', 'e', 'a', 'p']);
        },
        Opcode::DumpTrace => {
            reveal_strlit("dump_trace");
            assert(opcode_name(op)@ =~= seq!['d', 'u', 'm', 'p', '_', 't', 'r', 'a', 'c', 'e']);
        },
    }
}

/// The instructions that take an argument are exactly push, copy, slide,
/// label, call, jmp, jz and jn.
pub proof fn law_argument_opcodes(op: Opcode)
    ensures
        has_arg(op) <==> (op == Opcode::Push || op == Opcode::Copy || op == Opcode::Slide || op
            == Opcode::Label || op == Opcode::Call || op == Opcode::Jmp || op == Opcode::Jz || op
            == Opcode::Jn),
{
    law_instruction_table(op);
}

/// Only copy and slide need version 0.3 of the language, only shuffle needs
/// shuffle, only dump_stack and dump_heap need the dumps of stack and heap,
/// only dump_trace needs the trace dump; every other instruction needs no
/// feature.
pub proof fn law_feature_opcodes(op: Opcode)
    ensures
        (opcode_feature(op) == Some(Feature::Wspace0_3)) <==> (op == Opcode::Copy || op
            == Opcode::Slide),
        (opcode_feature(op) == Some(Feature::Shuffle)) <==> (op == Opcode::Shuffle),
        (opcode_feature(op) == Some(Feature::DumpStackHeap)) <==> (op == Opcode::DumpStack || op
            == Opcode::DumpHeap),
        (opcode_feature(op) == Some(Feature::DumpTrace)) <==> (op == Opcode::DumpTrace),
{
    law_instruction_table(op);
}

/// An instruction that takes an argument reads its argument: its opcode's
/// tokens, digit tokens and the line feed that closes them read as that
/// opcode, and reading goes on after the line feed.
pub proof fn law_argument_is_read(op: Opcode, digits: Seq<Token>, rest: Seq<Token>)
    requires
        op == Opcode::Push || op == Opcode::Copy || op == Opcode::Slide || op == Opcode::Label
            || op == Opcode::Call || op == Opcode::Jmp || op == Opcode::Jz || op == Opcode::Jn,
        forall|i: int| 0 <= i < digits.len() ==> digits[i] != Token::L,
    ensures
        decode_opcodes(opcode_tokens(op) + digits.push(Token::L) + rest) == shift_decoded(
            seq![op],
            decode_opcodes(rest),
            (opcode_tokens(op).len() + digits.len() + 1) as int,
        ),
{
    law_argument_opcodes(op);
    law_decode_instruction(op, digits.push(Token::L), rest);
}

/// An instruction without an argument is its opcode's tokens alone: reading
/// goes on right after them.
pub proof fn law_no_argument(op: Opcode, rest: Seq<Token>)
    requires
        !(op == Opcode::Push || op == Opcode::Copy || op == Opcode::Slide || op == Opcode::Label
            || op == Opcode::Call || op == Opcode::Jmp || op == Opcode::Jz || op == Opcode::Jn),
    ensures
        decode_opcodes(opcode_tokens(op) + rest) == shift_decoded(
            seq![op],
            decode_opcodes(rest),
            opcode_tokens(op).len() as int,
        ),
{
    law_argument_opcodes(op);
    law_decode_instruction(op, Seq::empty(), rest);
    assert(opcode_tokens(op) + Seq::<Token>::empty() + rest =~= opcode_tokens(op) + rest);
}

/// The length, second and last letter of each opcode's name, which tell the
/// names apart.
spec fn name_key(op: Opcode) -> (nat, char, char) {
    match op {
        Opcode::Push => (4nat, 'u', 'h'),
        Opcode::Dup => (3nat, 'u', 'p'),
        Opcode::Copy => (4nat, 'o', 'y'),
        Opcode::Swap => (4nat, 'w', 'p'),
        Opcode::Drop => (4nat, 'r', 'p'),
        Opcode::Slide => (5nat, 'l', 'e'),
        Opcode::Add => (3nat, 'd', 'd'),
        Opcode::Sub => (3nat, 'u', 'b'),
        Opcode::Mul => (3nat, 'u', 'l'),
        Opcode::Div => (3nat, 'i', 'v'),
        Opcode::Mod => (3nat, 'o', 'd'),
        Opcode::Store => (5nat, 't', 'e'),
        Opcode::Retrieve => (8nat, 'e', 'e'),
        Opcode::Label => (5nat, 'a', 'l'),
        Opcode::Call => (4nat, 'a', 'l'),
        Opcode::Jmp => (3nat, 'm', 'p'),
        Opcode::Jz => (2nat, 'z', 'z'),
        Opcode::Jn => (2nat, 'n', 'n'),
        Opcode::Ret => (3nat, 'e', 't'),
        Opcode::End => (3nat, 'n', 'd'),
        Opcode::Printc => (6nat, 'r', 'c'),
        Opcode::Printi => (6nat, 'r', 'i'),
        Opcode::Readc => (5nat, 'e', 'c'),
        Opcode::Readi => (5nat, 'e', 'i'),
        Opcode::Shuffle => (7nat, 'h', 'e'),
        Opcode::DumpStack => (10nat, 'u', 'k'),
        Opcode::DumpHeap => (9nat, 'u', 'p'),
        Opcode::DumpTrace => (10nat, 'u', 'e'),
    }
}

proof fn lemma_name_key(op: Opcode)
    ensures
        opcode_name(op)@.len() == name_key(op).0,
        opcode_name(op)@[1] == name_key(op).1,
        opcode_name(op)@[opcode_name(op)@.len() - 1] == name_key(op).2,
{
    law_instruction_table(op);
}

/// Distinct opcodes have distinct names.
pub proof fn law_opcode_names_distinct(a: Opcode, b: Opcode)
    requires
        a != b,
    ensures
        opcode_name(a)@ != opcode_name(b)@,
{
    lemma_name_key(a);
    lemma_name_key(b);
    assert(name_key(a) != name_key(b));
}

/// Does an instruction with this opcode take an argument (a number or a
/// label, written as digit tokens closed by a line feed)?
pub open spec fn has_arg(op: Opcode) -> bool {
    match op {
        Opcode::Push | Opcode::Copy | Opcode::Slide | Opcode::Label | Opcode::Call | Opcode::Jmp
        | Opcode::Jz | Opcode::Jn => true,
        _ => false,
    }
}

/// The position of the first line feed in `ts` from `from` on.
pub open spec fn first_l(ts: Seq<Token>, from: int) -> Option<int>
    decreases ts.len() - from,
{
    if from < 0 || from >= ts.len() {
        None
    } else if ts[from] == Token::L {
        Some(from)
    } else {
        first_l(ts, from + 1)
    }
}

/// Where the instruction at the front of `ts`, with opcode `op`, ends: after
/// its opcode tokens, and after the line feed that closes its argument.
pub open spec fn inst_end(ts: Seq<Token>, op: Opcode) -> Option<int> {
    let n = opcode_tokens(op).len() as int;
    if has_arg(op) {
        match first_l(ts, n) {
            Some(i) => Some(i + 1),
            None => None,
        }
    } else {
        Some(n)
    }
}

/// The opcodes of the instructions in `ts`, or the position of the first
/// instruction that cannot be read: no opcode's tokens start there, or its
/// argument is not closed.
pub open spec fn decode_opcodes(ts: Seq<Token>) -> Result<Seq<Opcode>, int>
    decreases ts.len(),
{
    if ts.len() == 0 {
        Ok(Seq::empty())
    } else {
        match opcode_of_prefix(ts) {
            None => Err(0),
            Some(op) => match inst_end(ts, op) {
                Some(end) => if 0 < end <= ts.len() {
                    shift_decoded(seq![op], decode_opcodes(ts.skip(end)), end)
                } else {
                    Err(0)
                },
                None => Err(0),
            },
        }
    }
}

/// The result of reading past `ops`, which take `len` tokens, then reading on
/// to `rest`.
pub open spec fn shift_decoded(ops: Seq<Opcode>, rest: Result<Seq<Opcode>, int>, len: int) -> Result<
    Seq<Opcode>,
    int,
> {
    match rest {
        Ok(r) => Ok(ops + r),
        Err(p) => Err(p + len),
    }
}

/// An instruction's argument as written: for an opcode with an argument,
/// digit tokens closed by a line feed; else nothing.
pub open spec fn well_formed_arg(op: Opcode, arg: Seq<Token>) -> bool {
    if has_arg(op) {
        &&& arg.len() >= 1
        &&& arg.last() == Token::L
        &&& forall|i: int| 0 <= i < arg.len() - 1 ==> arg[i] != Token::L
    } else {
        arg.len() == 0
    }
}

proof fn lemma_first_l_arg(op: Opcode, arg: Seq<Token>, rest: Seq<Token>, j: int)
    requires
        has_arg(op),
        well_formed_arg(op, arg),
        opcode_tokens(op).len() <= j <= opcode_tokens(op).len() + arg.len() - 1,
    ensures
        first_l(opcode_tokens(op) + arg + rest, j) == Some(
            opcode_tokens(op).len() + arg.len() - 1,
        ),
    decreases opcode_tokens(op).len() + arg.len() - j,
{
    let ts = opcode_tokens(op) + arg + rest;
    let n = opcode_tokens(op).len() as int;
    assert(ts[j] == arg[j - n]);
    if j < n + arg.len() - 1 {
        lemma_first_l_arg(op, arg, rest, j + 1);
    }
}

/// Instruction streams read back: an instruction written as its opcode's
/// tokens and a well-formed argument, followed by anything, reads as that
/// opcode and then whatever follows reads.
pub proof fn law_decode_instruction(op: Opcode, arg: Seq<Token>, rest: Seq<Token>)
    requires
        well_formed_arg(op, arg),
    ensures
        decode_opcodes(opcode_tokens(op) + arg + rest) == shift_decoded(
            seq![op],
            decode_opcodes(rest),
            (opcode_tokens(op).len() + arg.len()) as int,
        ),
{
    let ts = opcode_tokens(op) + arg + rest;
    let n = opcode_tokens(op).len() as int;
    assert(ts =~= opcode_tokens(op) + (arg + rest));
    lemma_opcode_of_tokens(op, arg + rest);
    if has_arg(op) {
        lemma_first_l_arg(op, arg, rest, n);
    }
    assert(ts.skip(n + arg.len()) =~= rest);
}

/// The opcodes of the instructions in `ts`, or the position of the first
/// instruction that cannot be read.
pub fn decode_opcodes_of(ts: &Vec<Token>) -> (r: Result<Vec<Opcode>, usize>)
    ensures
        match r {
            Ok(ops) => decode_opcodes(ts@) == Ok::<Seq<Opcode>, int>(ops@),
            Err(p) => decode_opcodes(ts@) == Err::<Seq<Opcode>, int>(p as int),
        },
{
    let mut ops: Vec<Opcode> = Vec::new();
    let mut pos: usize = 0;
    assert(ts@.skip(0) =~= ts@);
    assert(shift_decoded(ops@, decode_opcodes(ts@.skip(0)), 0) =~= decode_opcodes(ts@)) by {
        match decode_opcodes(ts@) {
            Ok(r) => assert(ops@ + r =~= r),
            Err(p) => {},
        }
    }
    while pos < ts.len()
        invariant
            pos <= ts@.len(),
            decode_opcodes(ts@) == shift_decoded(ops@, decode_opcodes(ts@.skip(pos as int)), pos as int),
        decreases ts@.len() - pos,
    {
        let ghost u = ts@.skip(pos as int);
        proof {
            lemma_opcode_of_prefix_tokens(u);
        }
        match opcode_at(ts, pos) {
            None => {
                return Err(pos);
            },
            Some(op) => {
                let n = op.tokens().len();
                let mut end = pos + n;
                if op.takes_arg() {
                    let mut j = end;
                    while j < ts.len() && ts[j] != Token::L
                        invariant
                            pos + n <= j <= ts@.len(),
                            u == ts@.skip(pos as int),
                            first_l(u, n as int) == first_l(u, j - pos),
                        decreases ts@.len() - j,
                    {
                        assert(u[j - pos] == ts@[j as int]);
                        j = j + 1;
                    }
                    if j == ts.len() {
                        return Err(pos);
                    }
                    assert(u[j - pos] == ts@[j as int]);
                    end = j + 1;
                }
                let ghost old_ops = ops@;
                ops.push(op);
                proof {
                    let e = end - pos;
                    assert(u.skip(e) =~= ts@.skip(end as int));
                    match decode_opcodes(ts@.skip(end as int)) {
                        Ok(r) => {
                            assert(old_ops + (seq![op] + r) =~= ops@ + r);
                        },
                        Err(p) => {},
                    }
                }
                pos = end;
            },
        }
    }
    assert(ts@.skip(pos as int) =~= Seq::<Token>::empty());
    assert(ops@ + Seq::<Opcode>::empty() =~= ops@);
    Ok(ops)
}

/// Some opcode's tokens start with `u`: reading `u` can still lead to an
/// instruction.
pub open spec fn is_opcode_start(u: Seq<Token>) -> bool {
    exists|op: Opcode| #[trigger] is_prefix(u, opcode_tokens(op))
}

/// How many tokens from the front of `u` an unreadable instruction takes,
/// looking on from `k` tokens: up to and including the first token after
/// which no opcode's tokens can follow, or all of `u` when it ends first.
pub open spec fn mismatch_len(u: Seq<Token>, k: int) -> int
    decreases u.len() - k,
{
    if k < 0 || k >= u.len() {
        u.len() as int
    } else if !is_opcode_start(u.take(k + 1)) {
        k + 1
    } else {
        mismatch_len(u, k + 1)
    }
}

/// The positions `ps`, each moved on by `k`.
pub open spec fn shift_positions(ps: Seq<int>, k: int) -> Seq<int> {
    ps.map_values(|p: int| p + k)
}

/// The opcodes of the instructions in `ts` that can be read, and the
/// positions of those that cannot, reading on past each of these: when no
/// opcode's tokens start at a position, the tokens read there up to the first
/// that fits no opcode are reported and skipped; an argument that no line
/// feed closes takes the rest of the tokens.
pub open spec fn decode_recovering(ts: Seq<Token>) -> (Seq<Opcode>, Seq<int>)
    decreases ts.len(),
{
    if ts.len() == 0 {
        (Seq::empty(), Seq::empty())
    } else {
        match opcode_of_prefix(ts) {
            Some(op) => match inst_end(ts, op) {
                Some(end) => if 0 < end <= ts.len() {
                    let r = decode_recovering(ts.skip(end));
                    (seq![op] + r.0, shift_positions(r.1, end))
                } else {
                    (Seq::empty(), seq![0int])
                },
                None => (Seq::empty(), seq![0int]),
            },
            None => {
                let m = mismatch_len(ts, 0);
                let n = if 1 <= m <= ts.len() {
                    m
                } else {
                    ts.len() as int
                };
                let r = decode_recovering(ts.skip(n));
                (r.0, seq![0int] + shift_positions(r.1, n))
            },
        }
    }
}

/// Reading on past unreadable instructions agrees with reading that stops at
/// the first: a stream that reads without fault gives the same opcodes and no
/// fault, and otherwise the first fault reported is where plain reading
/// stops.
pub proof fn law_recovering_agrees(ts: Seq<Token>)
    ensures
        decode_opcodes(ts) matches Ok(ops) ==> decode_recovering(ts) == (ops, Seq::<int>::empty()),
        decode_opcodes(ts) matches Err(p) ==> decode_recovering(ts).1.len() > 0
            && decode_recovering(ts).1[0] == p,
    decreases ts.len(),
{
    if ts.len() > 0 {
        match opcode_of_prefix(ts) {
            Some(op) => match inst_end(ts, op) {
                Some(end) => if 0 < end <= ts.len() {
                    law_recovering_agrees(ts.skip(end));
                    let r = decode_recovering(ts.skip(end));
                    if let Ok(rest) = decode_opcodes(ts.skip(end)) {
                        assert(shift_positions(Seq::<int>::empty(), end) =~= Seq::<int>::empty());
                    } else {
                        assert(shift_positions(r.1, end)[0] == r.1[0] + end);
                    }
                },
                None => {},
            },
            None => {},
        }
    }
}

/// Every opcode.
fn all_opcodes() -> (v: Vec<Opcode>)
    ensures
        forall|op: Opcode| v@.contains(op),
{
    let mut v: Vec<Opcode> = Vec::new();
    v.push(Opcode::Push);
    v.push(Opcode::Dup);
    v.push(Opcode::Copy);
    v.push(Opcode::Swap);
    v.push(Opcode::Drop);
    v.push(Opcode::Slide);
    v.push(Opcode::Add);
    v.push(Opcode::Sub);
    v.push(Opcode::Mul);
    v.push(Opcode::Div);
    v.push(Opcode::Mod);
    v.push(Opcode::Store);
    v.push(Opcode::Retrieve);
    v.push(Opcode::Label);
    v.push(Opcode::Call);
    v.push(Opcode::Jmp);
    v.push(Opcode::Jz);
    v.push(Opcode::Jn);
    v.push(Opcode::Ret);
    v.push(Opcode::End);
    v.push(Opcode::Printc);
    v.push(Opcode::Printi);
    v.push(Opcode::Readc);
    v.push(Opcode::Readi);
    v.push(Opcode::Shuffle);
    v.push(Opcode::DumpStack);
    v.push(Opcode::DumpHeap);
    v.push(Opcode::DumpTrace);
    assert forall|op: Opcode| v@.contains(op) by {
        match op {
            Opcode::Push => assert(v@[0] == Opcode::Push),
            Opcode::Dup => assert(v@[1] == Opcode::Dup),
            Opcode::Copy => assert(v@[2] == Opcode::Copy),
            Opcode::Swap => assert(v@[3] == Opcode::Swap),
            Opcode::Drop => assert(v@[4] == Opcode::Drop),
            Opcode::Slide => assert(v@[5] == Opcode::Slide),
            Opcode::Add => assert(v@[6] == Opcode::Add),
            Opcode::Sub => assert(v@[7] == Opcode::Sub),
            Opcode::Mul => assert(v@[8] == Opcode::Mul),
            Opcode::Div => assert(v@[9] == Opcode::Div),
            Opcode::Mod => assert(v@[10] == Opcode::Mod),
            Opcode::Store => assert(v@[11] == Opcode::Store),
            Opcode::Retrieve => assert(v@[12] == Opcode::Retrieve),
            Opcode::Label => assert(v@[13] == Opcode::Label),
            Opcode::Call => assert(v@[14] == Opcode::Call),
            Opcode::Jmp => assert(v@[15] == Opcode::Jmp),
            Opcode::Jz => assert(v@[16] == Opcode::Jz),
            Opcode::Jn => assert(v@[17] == Opcode::Jn),
            Opcode::Ret => assert(v@[18] == Opcode::Ret),
            Opcode::End => assert(v@[19] == Opcode::End),
            Opcode::Printc => assert(v@[20] == Opcode::Printc),
            Opcode::Printi => assert(v@[21] == Opcode::Printi),
            Opcode::Readc => assert(v@[22] == Opcode::Readc),
            Opcode::Readi => assert(v@[23] == Opcode::Readi),
            Opcode::Shuffle => assert(v@[24] == Opcode::Shuffle),
            Opcode::DumpStack => assert(v@[25] == Opcode::DumpStack),
            Opcode::DumpHeap => assert(v@[26] == Opcode::DumpHeap),
            Opcode::DumpTrace => assert(v@[27] == Opcode::DumpTrace),
        }
    }
    v
}

/// Do the `k` tokens of `ts` from `pos` on start some opcode's tokens?
fn starts_opcode(ts: &Vec<Token>, pos: usize, k: usize, ops: &Vec<Opcode>) -> (b: bool)
    requires
        pos + k <= ts@.len(),
        forall|op: Opcode| ops@.contains(op),
    ensures
        b == is_opcode_start(ts@.subrange(pos as int, pos + k)),
{
    let ghost u = ts@.subrange(pos as int, pos + k);
    let lim = ts.len();
    let mut i: usize = 0;
    while i < ops.len()
        invariant
            i <= ops@.len(),
            lim == ts@.len(),
            pos + k <= ts@.len(),
            u == ts@.subrange(pos as int, pos + k),
            forall|j: int| 0 <= j < i ==> !is_prefix(u, opcode_tokens(#[trigger] ops@[j])),
        decreases ops@.len() - i,
    {
        let t = ops[i].tokens();
        if k <= t.len() {
            let mut m: usize = 0;
            let mut same = true;
            while same && m < k
                invariant
                    m <= k,
                    k <= t@.len(),
                    lim == ts@.len(),
                    pos + k <= lim,
                    forall|j: int| 0 <= j < m ==> ts@[pos + j] == t@[j],
                    !same ==> m < k && ts@[pos + m] != t@[m as int],
                decreases 2 * (k - m) + (if same { 1int } else { 0int }),
            {
                let idx = pos + m;
                if ts[idx] == t[m] {
                    m = m + 1;
                } else {
                    same = false;
                }
            }
            if same {
                assert(t@.subrange(0, k as int) =~= u);
                assert(is_prefix(u, opcode_tokens(ops@[i as int])));
                return true;
            }
            assert(t@.subrange(0, k as int)[m as int] != u[m as int]);
        }
        i = i + 1;
    }
    assert forall|op: Opcode| !is_prefix(u, #[trigger] opcode_tokens(op)) by {
        assert(ops@.contains(op));
        let j = choose|j: int| 0 <= j < ops@.len() && ops@[j] == op;
        assert(!is_prefix(u, opcode_tokens(ops@[j])));
    }
    false
}

/// How many tokens the unreadable instruction at `pos` takes.
fn mismatch_len_at(ts: &Vec<Token>, pos: usize, ops: &Vec<Opcode>) -> (n: usize)
    requires
        pos < ts@.len(),
        forall|op: Opcode| ops@.contains(op),
    ensures
        n == mismatch_len(ts@.skip(pos as int), 0),
        1 <= n <= ts@.len() - pos,
{
    let ghost u = ts@.skip(pos as int);
    let len = ts.len() - pos;
    let mut k: usize = 0;
    while k < len
        invariant
            k <= len,
            len == u.len(),
            pos + len == ts@.len(),
            u == ts@.skip(pos as int),
            forall|op: Opcode| ops@.contains(op),
            mismatch_len(u, 0) == mismatch_len(u, k as int),
        decreases len - k,
    {
        assert(u.take(k + 1) =~= ts@.subrange(pos as int, pos + k + 1));
        if !starts_opcode(ts, pos, k + 1, ops) {
            return k + 1;
        }
        k = k + 1;
    }
    len
}

/// The opcodes of the instructions in `ts` that can be read, and the
/// positions of those that cannot, reading on past each of these.
#[verifier::rlimit(40)]
#[verifier::spinoff_prover]
pub fn decode_opcodes_recovering(ts: &Vec<Token>) -> (r: (Vec<Opcode>, Vec<usize>))
    ensures
        r.0@ == decode_recovering(ts@).0,
        r.1@.map_values(|p: usize| p as int) == decode_recovering(ts@).1,
{
    let all = all_opcodes();
    let mut ops: Vec<Opcode> = Vec::new();
    let mut errs: Vec<usize> = Vec::new();
    let mut pos: usize = 0;
    assert(ts@.skip(0) =~= ts@);
    assert(shift_positions(decode_recovering(ts@).1, 0) =~= decode_recovering(ts@).1);
    assert(errs@.map_values(|p: usize| p as int) + decode_recovering(ts@).1 =~= decode_recovering(ts@).1);
    assert(ops@ + decode_recovering(ts@).0 =~= decode_recovering(ts@).0);
    while pos < ts.len()
        invariant
            pos <= ts@.len(),
            forall|op: Opcode| all@.contains(op),
            decode_recovering(ts@).0 == ops@ + decode_recovering(ts@.skip(pos as int)).0,
            decode_recovering(ts@).1 == errs@.map_values(|p: usize| p as int) + shift_positions(
                decode_recovering(ts@.skip(pos as int)).1,
                pos as int,
            ),
        decreases ts@.len() - pos,
    {
        let ghost u = ts@.skip(pos as int);
        let ghost old_ops = ops@;
        let ghost old_errs = errs@.map_values(|p: usize| p as int);
        proof {
            lemma_opcode_of_prefix_tokens(u);
        }
        match opcode_at(ts, pos) {
            None => {
                let n = mismatch_len_at(ts, pos, &all);
                errs.push(pos);
                proof {
                    let r = decode_recovering(u.skip(n as int));
                    assert(u.skip(n as int) =~= ts@.skip(pos + n));
                    assert(errs@.map_values(|p: usize| p as int) =~= old_errs.push(pos as int));
                    assert(shift_positions(seq![0int] + shift_positions(r.1, n as int), pos as int)
                        =~= seq![pos as int] + shift_positions(r.1, pos + n));
                    assert(old_errs + (seq![pos as int] + shift_positions(r.1, pos + n))
                        =~= old_errs.push(pos as int) + shift_positions(r.1, pos + n));
                }
                pos = pos + n;
            },
            Some(op) => {
                let n = op.tokens().len();
                let mut end = pos + n;
                let mut closed = true;
                if op.takes_arg() {
                    let mut j = end;
                    while j < ts.len() && ts[j] != Token::L
                        invariant
                            pos + n <= j <= ts@.len(),
                            u == ts@.skip(pos as int),
                            first_l(u, n as int) == first_l(u, j - pos),
                        decreases ts@.len() - j,
                    {
                        assert(u[j - pos] == ts@[j as int]);
                        j = j + 1;
                    }
                    if j == ts.len() {
                        closed = false;
                    } else {
                        assert(u[j - pos] == ts@[j as int]);
                        end = j + 1;
                    }
                }
                if closed {
                    ops.push(op);
                    proof {
                        let e = end - pos;
                        let r = decode_recovering(ts@.skip(end as int));
                        assert(u.skip(e) =~= ts@.skip(end as int));
                        assert(old_ops + (seq![op] + r.0) =~= ops@ + r.0);
                        assert(shift_positions(shift_positions(r.1, e), pos as int)
                            =~= shift_positions(r.1, end as int));
                    }
                    pos = end;
                } else {
                    errs.push(pos);
                    proof {
                        assert(errs@.map_values(|p: usize| p as int) =~= old_errs.push(pos as int));
                        assert(ts@.skip(ts@.len() as int) =~= Seq::<Token>::empty());
                        assert(shift_positions(seq![0int], pos as int) =~= seq![pos as int]);
                        assert(old_ops + Seq::<Opcode>::empty() =~= old_ops);
                        assert(old_errs + seq![pos as int] =~= old_errs.push(pos as int));
                        assert(shift_positions(Seq::<int>::empty(), ts@.len() as int)
                            =~= Seq::<int>::empty());
                        assert(errs@.map_values(|p: usize| p as int) + Seq::<int>::empty()
                            =~= errs@.map_values(|p: usize| p as int));
                    }
                    pos = ts.len();
                }
            },
        }
    }
    proof {
        assert(ts@.skip(pos as int) =~= Seq::<Token>::empty());
        assert(ops@ + Seq::<Opcode>::empty() =~= ops@);
        assert(shift_positions(Seq::<int>::empty(), pos as int) =~= Seq::<int>::empty());
        assert(errs@.map_values(|p: usize| p as int) + Seq::<int>::empty()
            =~= errs@.map_values(|p: usize| p as int));
    }
    (ops, errs)
}

/// How the sign of an argument is written: `+`, `-`, or nothing.
pub open spec fn sign_chars(sign: Sign) -> Seq<char> {
    match sign {
        Sign::Pos => seq!['+'],
        Sign::Neg => seq!['-'],
        Sign::Empty => Seq::empty(),
    }
}

/// How an instruction's argument is written after its name: a space, then
/// for a number its sign and bits, for a label its bits, as `0` and `1`;
/// nothing for an instruction without one.
pub open spec fn arg_chars(inst: Inst) -> Seq<char> {
    match inst {
        Inst::Push(a) => seq![' '] + sign_chars(a.sign) + bit_chars(bits_of(a.bits)),
        Inst::Copy(a) => seq![' '] + sign_chars(a.sign) + bit_chars(bits_of(a.bits)),
        Inst::Slide(a) => seq![' '] + sign_chars(a.sign) + bit_chars(bits_of(a.bits)),
        Inst::Label(a) => seq![' '] + bit_chars(bits_of(a.bits)),
        Inst::Call(a) => seq![' '] + bit_chars(bits_of(a.bits)),
        Inst::Jmp(a) => seq![' '] + bit_chars(bits_of(a.bits)),
        Inst::Jz(a) => seq![' '] + bit_chars(bits_of(a.bits)),
        Inst::Jn(a) => seq![' '] + bit_chars(bits_of(a.bits)),
        _ => Seq::empty(),
    }
}

/// An instruction as text: its opcode's name, then its argument.
pub open spec fn inst_text(inst: Inst) -> Seq<char> {
    opcode_name(inst_opcode(inst))@ + arg_chars(inst)
}

/// Appends the bits of `bits` as `0` and `1`.
fn push_bits(t: &mut String, bits: &Bits)
    ensures
        final(t)@ == old(t)@ + bit_chars(bits_of(*bits)),
{
    let n = bitvec_len(bits);
    let ghost bs = bits_of(*bits);
    let mut i: usize = 0;
    while i < n
        invariant
            i <= n,
            n == bs.len(),
            bs == bits_of(*bits),
            t@ == old(t)@ + bit_chars(bs).take(i as int),
        decreases n - i,
    {
        let b = bitvec_get(bits, i);
        assert(bit_chars(bs).take(i + 1) =~= bit_chars(bs).take(i as int).push(
            if b {
                '1'
            } else {
                '0'
            },
        ));
        if b {
            string_push(t, '1');
        } else {
            string_push(t, '0');
        }
        assert(t@ =~= old(t)@ + bit_chars(bs).take(i + 1));
        i = i + 1;
    }
    assert(bit_chars(bs).take(n as int) =~= bit_chars(bs));
}

/// Appends a number argument: a space, its sign and its bits.
fn push_int_arg(t: &mut String, a: &Int)
    ensures
        final(t)@ == old(t)@ + seq![' '] + sign_chars(a.sign) + bit_chars(bits_of(a.bits)),
{
    string_push(t, ' ');
    match a.sign {
        Sign::Pos => string_push(t, '+'),
        Sign::Neg => string_push(t, '-'),
        Sign::Empty => {},
    }
    push_bits(t, &a.bits);
    assert(t@ =~= old(t)@ + seq![' '] + sign_chars(a.sign) + bit_chars(bits_of(a.bits)));
}

/// Appends a label argument: a space and its bits.
fn push_uint_arg(t: &mut String, a: &Uint)
    ensures
        final(t)@ == old(t)@ + seq![' '] + bit_chars(bits_of(a.bits)),
{
    string_push(t, ' ');
    push_bits(t, &a.bits);
    assert(t@ =~= old(t)@ + seq![' '] + bit_chars(bits_of(a.bits)));
}

/// The operation of an instruction.
pub open spec fn inst_opcode(inst: Inst) -> Opcode {
    match inst {
        Inst::Push(..) => Opcode::Push,
        Inst::Dup => Opcode::Dup,
        Inst::Copy(..) => Opcode::Copy,
        Inst::Swap => Opcode::Swap,
        Inst::Drop => Opcode::Drop,
        Inst::Slide(..) => Opcode::Slide,
        Inst::Add => Opcode::Add,
        Inst::Sub => Opcode::Sub,
        Inst::Mul => Opcode::Mul,
        Inst::Div => Opcode::Div,
        Inst::Mod => Opcode::Mod,
        Inst::Store => Opcode::Store,
        Inst::Retrieve => Opcode::Retrieve,
        Inst::Label(..) => Opcode::Label,
        Inst::Call(..) => Opcode::Call,
        Inst::Jmp(..) => Opcode::Jmp,
        Inst::Jz(..) => Opcode::Jz,
        Inst::Jn(..) => Opcode::Jn,
        Inst::Ret => Opcode::Ret,
        Inst::End => Opcode::End,
        Inst::Printc => Opcode::Printc,
        Inst::Printi => Opcode::Printi,
        Inst::Readc => Opcode::Readc,
        Inst::Readi => Opcode::Readi,
        Inst::Shuffle => Opcode::Shuffle,
        Inst::DumpStack => Opcode::DumpStack,
        Inst::DumpHeap => Opcode::DumpHeap,
        Inst::DumpTrace => Opcode::DumpTrace,
    }
}

/// The tokens that introduce an instruction with opcode `op`.
pub open spec fn opcode_tokens(op: Opcode) -> Seq<Token> {
    match op {
        Opcode::Push => seq![Token::S, Token::S],
        Opcode::Dup => seq![Token::S, Token::L, Token::S],
        Opcode::Copy => seq![Token::S, Token::T, Token::S],
        Opcode::Swap => seq![Token::S, Token::L, Token::T],
        Opcode::Drop => seq![Token::S, Token::L, Token::L],
        Opcode::Slide => seq![Token::S, Token::T, Token::L],
        Opcode::Add => seq![Token::T, Token::S, Token::S, Token::S],
        Opcode::Sub => seq![Token::T, Token::S, Token::S, Token::T],
        Opcode::Mul => seq![Token::T, Token::S, Token::S, Token::L],
        Opcode::Div => seq![Token::T, Token::S, Token::T, Token::S],
        Opcode::Mod => seq![Token::T, Token::S, Token::T, Token::T],
        Opcode::Store => seq![Token::T, Token::T, Token::S],
        Opcode::Retrieve => seq![Token::T, Token::T, Token::T],
        Opcode::Label => seq![Token::L, Token::S, Token::S],
        Opcode::Call => seq![Token::L, Token::S, Token::T],
        Opcode::Jmp => seq![Token::L, Token::S, Token::L],
        Opcode::Jz => seq![Token::L, Token::T, Token::S],
        Opcode::Jn => seq![Token::L, Token::T, Token::T],
        Opcode::Ret => seq![Token::L, Token::T, Token::L],
        Opcode::End => seq![Token::L, Token::L, Token::L],
        Opcode::Printc => seq![Token::T, Token::L, Token::S, Token::S],
        Opcode::Printi => seq![Token::T, Token::L, Token::S, Token::T],
        Opcode::Readc => seq![Token::T, Token::L, Token::T, Token::S],
        Opcode::Readi => seq![Token::T, Token::L, Token::T, Token::T],
        Opcode::Shuffle => seq![Token::S, Token::T, Token::T, Token::S],
        Opcode::DumpStack => seq![Token::L, Token::L, Token::S, Token::S, Token::S],
        Opcode::DumpHeap => seq![Token::L, Token::L, Token::S, Token::S, Token::T],
        Opcode::DumpTrace => seq![Token::L, Token::L, Token::T],
    }
}

/// The name of an opcode in assembly: its variant's name in snake case.
pub open spec fn opcode_name(op: Opcode) -> &'static str {
    match op {
        Opcode::Push => "push",
        Opcode::Dup => "dup",
        Opcode::Copy => "copy",
        Opcode::Swap => "swap",
        Opcode::Drop => "drop",
        Opcode::Slide => "slide",
        Opcode::Add => "add",
        Opcode::Sub => "sub",
        Opcode::Mul => "mul",
        Opcode::Div => "div",
        Opcode::Mod => "mod",
        Opcode::Store => "store",
        Opcode::Retrieve => "retrieve",
        Opcode::Label => "label",
        Opcode::Call => "call",
        Opcode::Jmp => "jmp",
        Opcode::Jz => "jz",
        Opcode::Jn => "jn",
        Opcode::Ret => "ret",
        Opcode::End => "end",
        Opcode::Printc => "printc",
        Opcode::Printi => "printi",
        Opcode::Readc => "readc",
        Opcode::Readi => "readi",
        Opcode::Shuffle => "shuffle",
        Opcode::DumpStack => "dump_stack",
        Opcode::DumpHeap => "dump_heap",
        Opcode::DumpTrace => "dump_trace",
    }
}

/// The feature an opcode needs, if it is not in the original instruction set.
pub open spec fn opcode_feature(op: Opcode) -> Option<Feature> {
    match op {
        Opcode::Copy => Some(Feature::Wspace0_3),
        Opcode::Slide => Some(Feature::Wspace0_3),
        Opcode::Shuffle => Some(Feature::Shuffle),
        Opcode::DumpStack => Some(Feature::DumpStackHeap),
        Opcode::DumpHeap => Some(Feature::DumpStackHeap),
        Opcode::DumpTrace => Some(Feature::DumpTrace),
        _ => None,
    }
}

impl Inst {
    /// The instruction's operation.
    pub fn opcode(&self) -> (op: Opcode)
        ensures
            op == inst_opcode(*self),
    {
        match self {
            Inst::Push(_) => Opcode::Push,
            Inst::Dup => Opcode::Dup,
            Inst::Copy(_) => Opcode::Copy,
            Inst::Swap => Opcode::Swap,
            Inst::Drop => Opcode::Drop,
            Inst::Slide(_) => Opcode::Slide,
            Inst::Add => Opcode::Add,
            Inst::Sub => Opcode::Sub,
            Inst::Mul => Opcode::Mul,
            Inst::Div => Opcode::Div,
            Inst::Mod => Opcode::Mod,
            Inst::Store => Opcode::Store,
            Inst::Retrieve => Opcode::Retrieve,
            Inst::Label(_) => Opcode::Label,
            Inst::Call(_) => Opcode::Call,
            Inst::Jmp(_) => Opcode::Jmp,
            Inst::Jz(_) => Opcode::Jz,
            Inst::Jn(_) => Opcode::Jn,
            Inst::Ret => Opcode::Ret,
            Inst::End => Opcode::End,
            Inst::Printc => Opcode::Printc,
            Inst::Printi => Opcode::Printi,
            Inst::Readc => Opcode::Readc,
            Inst::Readi => Opcode::Readi,
            Inst::Shuffle => Opcode::Shuffle,
            Inst::DumpStack => Opcode::DumpStack,
            Inst::DumpHeap => Opcode::DumpHeap,
            Inst::DumpTrace => Opcode::DumpTrace,
        }
    }
    /// The instruction as text: its opcode's name, then its argument as
    /// `arg_chars` writes it.
    pub fn to_string(&self) -> (t: String)
        ensures
            t@ == inst_text(*self),
    {
        let mut t = String::from_str(self.opcode().name());
        match self {
            Inst::Push(a) => push_int_arg(&mut t, a),
            Inst::Copy(a) => push_int_arg(&mut t, a),
            Inst::Slide(a) => push_int_arg(&mut t, a),
            Inst::Label(a) => push_uint_arg(&mut t, a),
            Inst::Call(a) => push_uint_arg(&mut t, a),
            Inst::Jmp(a) => push_uint_arg(&mut t, a),
            Inst::Jz(a) => push_uint_arg(&mut t, a),
            Inst::Jn(a) => push_uint_arg(&mut t, a),
            _ => {
                assert(t@ + Seq::<char>::empty() =~= t@);
            },
        }
        t
    }
}

impl Opcode {
    /// The tokens that introduce the instruction.
    pub fn tokens(&self) -> (toks: Vec<Token>)
        ensures
            toks@ == opcode_tokens(*self),
    {
        match self {
            Opcode::Push => vec![Token::S, Token::S],
            Opcode::Dup => vec![Token::S, Token::L, Token::S],
            Opcode::Copy => vec![Token::S, Token::T, Token::S],
            Opcode::Swap => vec![Token::S, Token::L, Token::T],
            Opcode::Drop => vec![Token::S, Token::L, Token::L],
            Opcode::Slide => vec![Token::S, Token::T, Token::L],
            Opcode::Add => vec![Token::T, Token::S, Token::S, Token::S],
            Opcode::Sub => vec![Token::T, Token::S, Token::S, Token::T],
            Opcode::Mul => vec![Token::T, Token::S, Token::S, Token::L],
            Opcode::Div => vec![Token::T, Token::S, Token::T, Token::S],
            Opcode::Mod => vec![Token::T, Token::S, Token::T, Token::T],
            Opcode::Store => vec![Token::T, Token::T, Token::S],
            Opcode::Retrieve => vec![Token::T, Token::T, Token::T],
            Opcode::Label => vec![Token::L, Token::S, Token::S],
            Opcode::Call => vec![Token::L, Token::S, Token::T],
            Opcode::Jmp => vec![Token::L, Token::S, Token::L],
            Opcode::Jz => vec![Token::L, Token::T, Token::S],
            Opcode::Jn => vec![Token::L, Token::T, Token::T],
            Opcode::Ret => vec![Token::L, Token::T, Token::L],
            Opcode::End => vec![Token::L, Token::L, Token::L],
            Opcode::Printc => vec![Token::T, Token::L, Token::S, Token::S],
            Opcode::Printi => vec![Token::T, Token::L, Token::S, Token::T],
            Opcode::Readc => vec![Token::T, Token::L, Token::T, Token::S],
            Opcode::Readi => vec![Token::T, Token::L, Token::T, Token::T],
            Opcode::Shuffle => vec![Token::S, Token::T, Token::T, Token::S],
            Opcode::DumpStack => vec![Token::L, Token::L, Token::S, Token::S, Token::S],
            Opcode::DumpHeap => vec![Token::L, Token::L, Token::S, Token::S, Token::T],
            Opcode::DumpTrace => vec![Token::L, Token::L, Token::T],
        }
    }

    /// The name of the opcode in assembly, in snake case.
    pub fn name(&self) -> (n: &'static str)
        ensures
            n == opcode_name(*self),
    {
        match self {
            Opcode::Push => "push",
            Opcode::Dup => "dup",
            Opcode::Copy => "copy",
            Opcode::Swap => "swap",
            Opcode::Drop => "drop",
            Opcode::Slide => "slide",
            Opcode::Add => "add",
            Opcode::Sub => "sub",
            Opcode::Mul => "mul",
            Opcode::Div => "div",
            Opcode::Mod => "mod",
            Opcode::Store => "store",
            Opcode::Retrieve => "retrieve",
            Opcode::Label => "label",
            Opcode::Call => "call",
            Opcode::Jmp => "jmp",
            Opcode::Jz => "jz",
            Opcode::Jn => "jn",
            Opcode::Ret => "ret",
            Opcode::End => "end",
            Opcode::Printc => "printc",
            Opcode::Printi => "printi",
            Opcode::Readc => "readc",
            Opcode::Readi => "readi",
            Opcode::Shuffle => "shuffle",
            Opcode::DumpStack => "dump_stack",
            Opcode::DumpHeap => "dump_heap",
            Opcode::DumpTrace => "dump_trace",
        }
    }

    /// Does the instruction take an argument?
    pub fn takes_arg(&self) -> (b: bool)
        ensures
            b == has_arg(*self),
    {
        match self {
            Opcode::Push | Opcode::Copy | Opcode::Slide | Opcode::Label | Opcode::Call
            | Opcode::Jmp | Opcode::Jz | Opcode::Jn => true,
            _ => false,
        }
    }

    /// The feature the instruction needs, if it is not in the original
    /// instruction set.
    pub fn feature(&self) -> (f: Option<Feature>)
        ensures
            f == opcode_feature(*self),
    {
        match self {
            Opcode::Copy => Some(Feature::Wspace0_3),
            Opcode::Slide => Some(Feature::Wspace0_3),
            Opcode::Shuffle => Some(Feature::Shuffle),
            Opcode::DumpStack => Some(Feature::DumpStackHeap),
            Opcode::DumpHeap => Some(Feature::DumpStackHeap),
            Opcode::DumpTrace => Some(Feature::DumpTrace),
            _ => None,
        }
    }
}

} // verus!
