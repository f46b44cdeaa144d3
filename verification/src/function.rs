//! A function unit: an identifier token and the bound virtual-stack log of
//! its body. Stacks never cross function boundaries.

use vstd::prelude::*;
use crate::stack::Stack;
use crate::token::Token;
use crate::token::TokenModel;
use crate::token::TokenType;
use crate::token::arity_model;
use crate::token::bound_model;

verus! {

/// What binding guarantees of a function's log: every entry is fully
/// bound, and no instruction consumes more values than stood below it, so
/// every operand reference points strictly earlier in the log.
pub open spec fn well_bound_log(log: Seq<TokenModel>) -> bool {
    forall|q: int|
        0 <= q < log.len() ==> bound_model(#[trigger] log[q]) && (log[q].token_type
            == TokenType::Opcode ==> arity_model(log[q]) <= q)
}

/// Mathematical model of a [`Function`].
#[verifier::ext_equal]
pub struct FunctionModel {
    pub name: TokenModel,
    pub stack: Seq<TokenModel>,
}

/// One function of the program: its identifier token (a fresh blank token
/// for the implicit top-level function) and its own bound log.
#[derive(Debug)]
pub struct Function {
    pub name: Token,
    pub stack: Stack,
}

impl View for Function {
    type V = FunctionModel;

    open spec fn view(&self) -> FunctionModel {
        FunctionModel { name: self.name@, stack: self.stack@ }
    }
}

/// The models of a sequence of functions, in order.
pub open spec fn function_views(fs: Seq<Function>) -> Seq<FunctionModel> {
    Seq::new(fs.len(), |j: int| fs[j]@)
}

} // verus!
