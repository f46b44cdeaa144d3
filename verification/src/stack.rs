//! The virtual stack: an append-only, per-function log of produced tokens.
//! It never shrinks; operands are resolved by relative position without
//! removing entries, so one token may feed several later instructions.

use vstd::prelude::*;
use crate::token::Token;
use crate::token::TokenModel;
use crate::token::lemma_views_of;
use crate::token::views_of;

verus! {

/// An ordered, append-only sequence of tokens, scoped to one function.
#[derive(Debug)]
pub struct Stack {
    pub tokens: Vec<Token>,
}

impl View for Stack {
    type V = Seq<TokenModel>;

    open spec fn view(&self) -> Seq<TokenModel> {
        views_of(self.tokens@)
    }
}

impl Stack {
    /// An empty log.
    pub fn new() -> (r: Stack)
        ensures
            r@ =~= Seq::<TokenModel>::empty(),
    {
        Stack { tokens: Vec::new() }
    }

    /// Appends one token; nothing is ever removed.
    pub fn push(&mut self, t: Token)
        ensures
            final(self)@ == old(self)@.push(t@),
    {
        proof {
            lemma_views_of(self.tokens@);
        }
        self.tokens.push(t);
        proof {
            lemma_views_of(self.tokens@);
            assert(self@ =~= old(self)@.push(t@));
        }
    }

    /// The number of tokens appended so far.
    pub fn len(&self) -> (n: usize)
        ensures
            n == self@.len(),
    {
        proof {
            lemma_views_of(self.tokens@);
        }
        self.tokens.len()
    }

    /// The token at position `i`, or `None` past the end.
    pub fn get(&self, i: usize) -> (r: Option<&Token>)
        ensures
            i < self@.len() ==> r is Some && r->Some_0@ == self@[i as int],
            i >= self@.len() ==> r is None,
    {
        proof {
            lemma_views_of(self.tokens@);
        }
        if i < self.tokens.len() {
            Some(&self.tokens[i])
        } else {
            None
        }
    }
}

} // verus!
