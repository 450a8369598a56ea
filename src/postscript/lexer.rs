use crate::lexer::{new_state, LexMode, LexModel};
use vstd::prelude::*;

pub use crate::lexer::{State, Token};

verus! {

/// A lexer for a content stream, at the start of `src`: bare words are
/// operators.
pub fn parse(src: &[u8]) -> (r: State)
    ensures
        r@ == (LexModel {
            store: src@,
            pos: 0,
            mode: LexMode::Content,
            pending: Seq::empty(),
            ready: Seq::empty(),
            error: None,
        }),
        r.wf(),
{
    new_state(src, LexMode::Content)
}

} // verus!
