//! Whitespace tokens and the reading of program text.
use vstd::prelude::*;

verus! {

/// A Whitespace token: space, tab, or line feed.
#[derive(Clone, Copy, Debug, PartialEq, Eq, Structural, Hash)]
pub enum Token {
    S,
    T,
    L,
}

/// The token a byte of program text stands for: space, tab and line feed;
/// every other byte is commentary.
pub open spec fn text_token(b: u8) -> Option<Token> {
    if b == 32 {
        Some(Token::S)
    } else if b == 9 {
        Some(Token::T)
    } else if b == 10 {
        Some(Token::L)
    } else {
        None
    }
}

/// The tokens of program text, commentary left out.
pub open spec fn text_tokens(src: Seq<u8>) -> Seq<Token>
    decreases src.len(),
{
    if src.len() == 0 {
        Seq::empty()
    } else {
        match text_token(src.last()) {
            Some(t) => text_tokens(src.drop_last()).push(t),
            None => text_tokens(src.drop_last()),
        }
    }
}

/// The tokens of program text (spaces, tabs and line feeds), commentary left
/// out.
pub fn lex_text(src: &[u8]) -> (toks: Vec<Token>)
    ensures
        toks@ == text_tokens(src@),
{
    let mut toks: Vec<Token> = Vec::new();
    let mut i: usize = 0;
    while i < src.len()
        invariant
            i <= src@.len(),
            toks@ == text_tokens(src@.take(i as int)),
        decreases src@.len() - i,
    {
        let b = src[i];
        assert(src@.take(i + 1).drop_last() =~= src@.take(i as int));
        if b == 32 {
            toks.push(Token::S);
        } else if b == 9 {
            toks.push(Token::T);
        } else if b == 10 {
            toks.push(Token::L);
        }
        i = i + 1;
    }
    assert(src@.take(src@.len() as int) =~= src@);
    toks
}

} // verus!
