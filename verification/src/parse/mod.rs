//! The tokenizer: source bytes to tokens.
use crate::transport::{chunked, Channel, ChunkedSender};
use vstd::prelude::*;

verus! {

/// One symbol of the source language.
#[derive(Copy, Clone, Debug, PartialEq, Eq, Hash, Structural)]
pub enum Token {
    IncrementPointer,
    DecrementPointer,
    IncrementData,
    DecrementData,
    Output,
    Input,
    LeftBracket,
    RightBracket,
}

/// `>`: move the pointer one cell up.
pub const SYMBOL_RIGHT: u8 = 0x3e;

/// `<`: move the pointer one cell down.
pub const SYMBOL_LEFT: u8 = 0x3c;

/// `+`: add one to the current cell.
pub const SYMBOL_PLUS: u8 = 0x2b;

/// `-`: take one from the current cell.
pub const SYMBOL_MINUS: u8 = 0x2d;

/// `.`: write the current cell.
pub const SYMBOL_OUTPUT: u8 = 0x2e;

/// `,`: read into the current cell.
pub const SYMBOL_INPUT: u8 = 0x2c;

/// `[`: open a group.
pub const SYMBOL_OPEN: u8 = 0x5b;

/// `]`: close a group.
pub const SYMBOL_CLOSE: u8 = 0x5d;

/// The token that a byte stands for; `None` for a byte that is commentary.
pub open spec fn token_of(byte: u8) -> Option<Token> {
    if byte == SYMBOL_RIGHT {
        Some(Token::IncrementPointer)
    } else if byte == SYMBOL_LEFT {
        Some(Token::DecrementPointer)
    } else if byte == SYMBOL_PLUS {
        Some(Token::IncrementData)
    } else if byte == SYMBOL_MINUS {
        Some(Token::DecrementData)
    } else if byte == SYMBOL_OUTPUT {
        Some(Token::Output)
    } else if byte == SYMBOL_INPUT {
        Some(Token::Input)
    } else if byte == SYMBOL_OPEN {
        Some(Token::LeftBracket)
    } else if byte == SYMBOL_CLOSE {
        Some(Token::RightBracket)
    } else {
        None
    }
}

/// The tokens of a source text: its symbol bytes in source order, every other
/// byte left out.
pub open spec fn tokenize(source: Seq<u8>) -> Seq<Token>
    decreases source.len(),
{
    if source.len() == 0 {
        Seq::empty()
    } else {
        let before = tokenize(source.drop_last());
        match token_of(source.last()) {
            Some(token) => before.push(token),
            None => before,
        }
    }
}

/// A source text never yields more tokens than it has bytes.
pub proof fn lemma_tokenize_len(source: Seq<u8>)
    ensures
        tokenize(source).len() <= source.len(),
    decreases source.len(),
{
    if source.len() > 0 {
        lemma_tokenize_len(source.drop_last());
    }
}

/// Tokens come in source order: the tokens of a text are the tokens of any
/// front part of it followed by the tokens of what is left.
pub proof fn lemma_tokenize_concat(front: Seq<u8>, back: Seq<u8>)
    ensures
        tokenize(front + back) == tokenize(front) + tokenize(back),
    decreases back.len(),
{
    if back.len() == 0 {
        assert(front + back =~= front);
        assert(tokenize(front) + tokenize(back) =~= tokenize(front));
    } else {
        let whole = front + back;
        assert(whole.drop_last() =~= front + back.drop_last());
        assert(whole.last() == back.last());
        lemma_tokenize_concat(front, back.drop_last());
        match token_of(back.last()) {
            Some(token) => {
                assert(tokenize(whole) =~= tokenize(front) + tokenize(back));
            },
            None => {},
        }
    }
}

/// A text without any symbol has no tokens.
pub proof fn lemma_tokenize_commentary(source: Seq<u8>)
    requires
        forall|k: int| 0 <= k < source.len() ==> token_of(#[trigger] source[k]) is None,
    ensures
        tokenize(source) == Seq::<Token>::empty(),
    decreases source.len(),
{
    if source.len() > 0 {
        lemma_tokenize_commentary(source.drop_last());
    }
}

impl Token {
    /// Reads one byte as a token.
    pub fn from_byte(byte: u8) -> (token: Option<Token>)
        ensures
            token == token_of(byte),
    {
        if byte == SYMBOL_RIGHT {
            Some(Token::IncrementPointer)
        } else if byte == SYMBOL_LEFT {
            Some(Token::DecrementPointer)
        } else if byte == SYMBOL_PLUS {
            Some(Token::IncrementData)
        } else if byte == SYMBOL_MINUS {
            Some(Token::DecrementData)
        } else if byte == SYMBOL_OUTPUT {
            Some(Token::Output)
        } else if byte == SYMBOL_INPUT {
            Some(Token::Input)
        } else if byte == SYMBOL_OPEN {
            Some(Token::LeftBracket)
        } else if byte == SYMBOL_CLOSE {
            Some(Token::RightBracket)
        } else {
            None
        }
    }

    /// Finds the byte of `source` that the token number `index` was read from,
    /// counting tokens from zero; `None` if the text has no such token.
    pub fn locate(source: &[u8], index: usize) -> (offset: Option<usize>)
        ensures
            match offset {
                Some(offset) => {
                    &&& offset < source@.len()
                    &&& token_of(source@[offset as int]) is Some
                    &&& tokenize(source@.take(offset as int)).len() == index
                },
                None => tokenize(source@).len() <= index,
            },
    {
        let mut seen: usize = 0;
        let mut at: usize = 0;
        while at < source.len()
            invariant
                at <= source.len(),
                seen <= index,
                seen == tokenize(source@.take(at as int)).len(),
            decreases source.len() - at,
        {
            assert(source@.take(at + 1).drop_last() =~= source@.take(at as int));
            if Token::from_byte(source[at]).is_some() {
                if seen == index {
                    return Some(at);
                }
                seen += 1;
            }
            at += 1;
        }
        assert(source@.take(at as int) =~= source@);
        None
    }

    /// Tokenizes `source` onto a fresh channel that batches by `chunk_size`.
    /// Bracket nesting is not looked at here.
    pub fn parse(source: &[u8], chunk_size: usize) -> (channel: Channel<Token>)
        requires
            chunk_size > 0,
        ensures
            channel.items() == tokenize(source@),
            channel.wire() == chunked(tokenize(source@), chunk_size as nat),
            channel.items().len() <= source@.len() <= usize::MAX,
    {
        let mut sender = ChunkedSender::new(chunk_size);
        let mut at: usize = 0;
        while at < source.len()
            invariant
                at <= source.len(),
                sender.wf(),
                sender.chunk_size() == chunk_size,
                sender.items() == tokenize(source@.take(at as int)),
            decreases source.len() - at,
        {
            assert(source@.take(at + 1).drop_last() =~= source@.take(at as int));
            if let Some(token) = Token::from_byte(source[at]) {
                sender.send(token);
            }
            at += 1;
        }
        proof {
            assert(source@.take(at as int) =~= source@);
            lemma_tokenize_len(source@);
        }
        sender.flush()
    }
}

} // verus!
