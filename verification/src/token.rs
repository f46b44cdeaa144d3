//! Tokens: the typed units of the instruction stream. A word is classified
//! once into a category, an opcode token is later bound to the operands it
//! consumes, and a bound token renders as an infix or call expression.

use vstd::prelude::*;
use crate::opcodes::Opcode;
use crate::opcodes::OpcodeModel;
use crate::opcodes::Registry;
use crate::opcodes::copy_opcode;
use crate::opcodes::lookup_model;
use crate::opcodes::sentinel_model;
use crate::stack::Stack;
use crate::text::lower;
use crate::text::to_lowercase;
use crate::text::trim;
use crate::text::trimmed;

verus! {

/// The closed set of token categories. Classification assigns exactly one.
#[derive(Clone, Copy, PartialEq, Eq, Structural, Debug)]
pub enum TokenType {
    Constant,
    Opcode,
    Reference,
    Variable,
    Function,
    Return,
    JumpLabel,
    Unknown,
}

/// Mathematical model of a [`Token`]: text as `Seq<char>`, operands as a
/// sequence of token models.
#[verifier::ext_equal]
pub struct TokenModel {
    pub value: Seq<char>,
    pub token_type: TokenType,
    pub opcode: Option<OpcodeModel>,
    pub operands: Seq<TokenModel>,
}

/// One unit of the instruction stream. `opcode` is meaningful only for
/// tokens of category `Opcode`; `operands` is filled exactly once by
/// binding and stays empty for every other category.
#[derive(Debug)]
pub struct Token {
    pub value: String,
    pub token_type: TokenType,
    pub opcode: Option<Opcode>,
    pub operands: Vec<Token>,
}

/// The models of a sequence of tokens, in order.
pub open spec fn views_of(toks: Seq<Token>) -> Seq<TokenModel>
    decreases toks, 0int,
{
    if toks.len() == 0 {
        Seq::empty()
    } else {
        views_of(toks.subrange(0, toks.len() - 1)).push(toks[toks.len() - 1]@)
    }
}

impl View for Token {
    type V = TokenModel;

    open spec fn view(&self) -> TokenModel
        decreases *self, 1int,
    {
        TokenModel {
            value: self.value@,
            token_type: self.token_type,
            opcode: match self.opcode {
                Some(ref op) => Some(op@),
                None => None,
            },
            operands: views_of(self.operands@),
        }
    }
}

/// `views_of` maps the sequence pointwise.
pub proof fn lemma_views_of(toks: Seq<Token>)
    ensures
        views_of(toks).len() == toks.len(),
        forall|i: int| 0 <= i < toks.len() ==> views_of(toks)[i] == toks[i]@,
    decreases toks.len(),
{
    if toks.len() > 0 {
        let head = toks.subrange(0, toks.len() - 1);
        lemma_views_of(head);
        assert(views_of(toks) == views_of(head).push(toks[toks.len() - 1]@));
        assert forall|i: int| 0 <= i < toks.len() implies views_of(toks)[i] == toks[i]@ by {
            if i < toks.len() - 1 {
                assert(views_of(head).push(toks[toks.len() - 1]@)[i] == views_of(head)[i]);
                assert(head[i] == toks[i]);
            }
        }
    }
}

/// Structural sanity of a token model: it always carries an opcode spec,
/// and only opcode tokens may carry operands.
pub open spec fn wf_model(t: TokenModel) -> bool
    decreases t,
{
    &&& t.opcode is Some
    &&& (t.token_type != TokenType::Opcode ==> t.operands.len() == 0)
    &&& forall|i: int| 0 <= i < t.operands.len() ==> wf_model(#[trigger] t.operands[i])
}

/// A fully bound token model: well formed, and every opcode token holds
/// exactly as many operands as its opcode's arity, recursively.
pub open spec fn bound_model(t: TokenModel) -> bool
    decreases t,
{
    &&& t.opcode is Some
    &&& (t.token_type == TokenType::Opcode ==> t.operands.len() == t.opcode->Some_0.pops)
    &&& (t.token_type != TokenType::Opcode ==> t.operands.len() == 0)
    &&& forall|i: int| 0 <= i < t.operands.len() ==> bound_model(#[trigger] t.operands[i])
}

/// How many produced values a token consumes when bound.
pub open spec fn arity_model(t: TokenModel) -> nat {
    if t.opcode is Some {
        t.opcode->Some_0.pops as nat
    } else {
        0
    }
}

/// Every bound opcode token holds exactly as many operands as its
/// opcode's arity; every other token holds none.
pub proof fn lemma_bound_operand_count(t: TokenModel)
    requires
        bound_model(t),
    ensures
        t.token_type == TokenType::Opcode ==> t.operands.len() == arity_model(t),
        t.token_type != TokenType::Opcode ==> t.operands.len() == 0,
{
}

/// A bound token is in particular well formed.
pub proof fn lemma_bound_is_wf(t: TokenModel)
    requires
        bound_model(t),
    ensures
        wf_model(t),
    decreases t,
{
    assert forall|i: int| 0 <= i < t.operands.len() implies wf_model(#[trigger] t.operands[i]) by {
        lemma_bound_is_wf(t.operands[i]);
    }
}

/// The model of a freshly created token: empty text, category `Unknown`,
/// the sentinel opcode spec, no operands.
pub open spec fn blank_model() -> TokenModel {
    TokenModel {
        value: Seq::empty(),
        token_type: TokenType::Unknown,
        opcode: Some(sentinel_model(Seq::empty())),
        operands: Seq::empty(),
    }
}

/// The operands an opcode of arity `pops` binds from the top of log `l`:
/// operand `i` is the entry `i` positions below the top, so operand 0 is
/// the most recently produced value.
pub open spec fn bound_operands(l: Seq<TokenModel>, pops: nat) -> Seq<TokenModel> {
    Seq::new(pops, |i: int| l[l.len() - 1 - i])
}

/// The category a trimmed word classifies into, decided by first match:
/// prefix `0x` is a constant, `[` a reference, `<` a variable, `_` a
/// function marker, suffix `:` a jump label, anything else an opcode.
pub open spec fn classify_type(w: Seq<char>) -> TokenType {
    if w.len() >= 2 && w[0] == '0' && w[1] == 'x' {
        TokenType::Constant
    } else if w.len() >= 1 && w[0] == '[' {
        TokenType::Reference
    } else if w.len() >= 1 && w[0] == '<' {
        TokenType::Variable
    } else if w.len() >= 1 && w[0] == '_' {
        TokenType::Function
    } else if w.len() >= 1 && w[w.len() - 1] == ':' {
        TokenType::JumpLabel
    } else {
        TokenType::Opcode
    }
}

/// The token a word classifies into: trimmed text, its category, and (for
/// opcode tokens) the registry entry for the mnemonic. No binding happens
/// here: the operand list is empty.
pub open spec fn classify_model(word: Seq<char>, reg: Seq<OpcodeModel>) -> TokenModel {
    let w = trimmed(word);
    let tt = classify_type(w);
    TokenModel {
        value: w,
        token_type: tt,
        opcode: if tt == TokenType::Opcode {
            Some(lookup_model(reg, w))
        } else {
            Some(sentinel_model(Seq::empty()))
        },
        operands: Seq::empty(),
    }
}

/// The separator rendered between operands: the infix symbol padded with
/// spaces when the opcode has one, a comma otherwise.
pub open spec fn sep_for(op: OpcodeModel) -> Seq<char> {
    match op.sign {
        Some(sign) => seq![' '] + sign + seq![' '],
        None => seq![',', ' '],
    }
}

/// The text a bound token renders to.
///
/// A non-opcode token is its raw text verbatim. An opcode token renders as
/// its alternate literal when stack-output mode is on and one is defined
/// (with no recursion into operands); as its operands joined by the padded
/// infix symbol when one is defined (no parentheses are inserted: nesting
/// disambiguation relies solely on substitution); and otherwise as a call:
/// the lowercased mnemonic around the comma-joined operands.
pub open spec fn render_model(t: TokenModel, show: bool) -> Seq<char>
    decreases t, 1int,
{
    if t.token_type != TokenType::Opcode {
        t.value
    } else {
        match t.opcode {
            Some(op) => {
                if show && op.output is Some {
                    op.output->Some_0
                } else {
                    match op.sign {
                        Some(_) => render_list(t.operands, sep_for(op), show),
                        None => lower(op.name) + seq!['('] + render_list(
                            t.operands,
                            sep_for(op),
                            show,
                        ) + seq![')'],
                    }
                }
            },
            None => t.value,
        }
    }
}

/// Operand texts joined by a separator.
pub open spec fn render_list(ops: Seq<TokenModel>, sep: Seq<char>, show: bool) -> Seq<char>
    decreases ops, 0int,
{
    if ops.len() == 0 {
        Seq::empty()
    } else if ops.len() == 1 {
        render_model(ops[0], show)
    } else {
        render_model(ops[0], show) + sep + render_list(ops.subrange(1, ops.len() as int), sep, show)
    }
}

/// Joining one more operand onto the right of a rendered list.
pub proof fn lemma_render_list_snoc(ops: Seq<TokenModel>, t: TokenModel, sep: Seq<char>, show: bool)
    ensures
        render_list(ops.push(t), sep, show) == if ops.len() == 0 {
            render_model(t, show)
        } else {
            render_list(ops, sep, show) + sep + render_model(t, show)
        },
    decreases ops.len(),
{
    if ops.len() == 0 {
        assert(ops.push(t)[0] == t);
    } else {
        let tail = ops.subrange(1, ops.len() as int);
        lemma_render_list_snoc(tail, t, sep, show);
        assert(ops.push(t).subrange(1, ops.len() as int + 1) =~= tail.push(t));
        assert(ops.push(t)[0] == ops[0]);
    }
}

impl Token {
    /// A fresh token, not yet classified.
    pub fn new() -> (t: Token)
        ensures
            t@ == blank_model(),
    {
        let t = Token {
            value: String::new(),
            token_type: TokenType::Unknown,
            opcode: Some(Opcode { name: String::new(), pops: 0, sign: None, output: None }),
            operands: Vec::new(),
        };
        proof {
            assert(t@ =~= blank_model());
        }
        t
    }

    /// An exact copy, equal at the model level.
    pub fn deep_copy(&self) -> (r: Token)
        ensures
            r@ == self@,
        decreases *self,
    {
        let n = self.operands.len();
        let mut ops: Vec<Token> = Vec::new();
        let mut i: usize = 0;
        while i < n
            invariant
                n == self.operands@.len(),
                i <= n,
                ops@.len() == i,
                forall|j: int| 0 <= j < i ==> ops@[j]@ == self.operands@[j]@,
            decreases n - i,
        {
            let c = self.operands[i].deep_copy();
            ops.push(c);
            i = i + 1;
        }
        let opcode = match &self.opcode {
            Some(op) => Some(copy_opcode(op)),
            None => None,
        };
        let r = Token {
            value: self.value.clone(),
            token_type: self.token_type,
            opcode: opcode,
            operands: ops,
        };
        proof {
            lemma_views_of(ops@);
            lemma_views_of(self.operands@);
            assert(views_of(ops@) =~= views_of(self.operands@));
            assert(r@ =~= self@);
        }
        r
    }

    /// Classifies one word: trims it, decides its category by prefix or
    /// suffix, and, for opcode tokens, looks the mnemonic up in the
    /// registry. No binding happens here.
    pub fn from_string(word: &str, registry: &Registry) -> (t: Token)
        ensures
            t@ == classify_model(word@, registry@),
            t@.operands.len() == 0,
    {
        let w = trim(word);
        let n = w.unicode_len();
        let token_type = if n >= 2 && w.get_char(0) == '0' && w.get_char(1) == 'x' {
            TokenType::Constant
        } else if n >= 1 && w.get_char(0) == '[' {
            TokenType::Reference
        } else if n >= 1 && w.get_char(0) == '<' {
            TokenType::Variable
        } else if n >= 1 && w.get_char(0) == '_' {
            TokenType::Function
        } else if n >= 1 && w.get_char(n - 1) == ':' {
            TokenType::JumpLabel
        } else {
            TokenType::Opcode
        };
        let opcode = if token_type == TokenType::Opcode {
            registry.lookup(w)
        } else {
            Opcode { name: String::new(), pops: 0, sign: None, output: None }
        };
        let t = Token {
            value: w.to_owned(),
            token_type: token_type,
            opcode: Some(opcode),
            operands: Vec::new(),
        };
        proof {
            assert(t@ =~= classify_model(word@, registry@));
        }
        t
    }

    /// Binds the operands this opcode token consumes: operand `i` is the
    /// copy of the log entry `i` positions below the top, so operand 0 is
    /// the most recently produced value. Requires enough produced values;
    /// the binder reports a structural error instead of calling this when
    /// the log is too short.
    pub fn set_operands(&mut self, stack: &Stack)
        requires
            old(self)@.opcode is Some,
            old(self)@.opcode->Some_0.pops <= stack@.len(),
        ensures
            final(self)@ == (TokenModel {
                operands: bound_operands(stack@, old(self)@.opcode->Some_0.pops as nat),
                ..old(self)@
            }),
    {
        let pops = self.opcode.as_ref().unwrap().pops;
        let mut operands: Vec<Token> = Vec::new();
        let mut i: usize = 0;
        while i < pops
            invariant
                pops == old(self)@.opcode->Some_0.pops,
                pops <= stack@.len(),
                i <= pops,
                operands@.len() == i,
                forall|j: int| 0 <= j < i ==> operands@[j]@ == stack@[stack@.len() - 1 - j],
            decreases pops - i,
        {
            let idx = stack.len() - 1 - i;
            let t = stack.get(idx).unwrap().deep_copy();
            operands.push(t);
            i = i + 1;
        }
        self.operands = operands;
        proof {
            lemma_views_of(self.operands@);
            assert(self@.operands =~= bound_operands(stack@, pops as nat));
            assert(self@ =~= (TokenModel {
                operands: bound_operands(stack@, old(self)@.opcode->Some_0.pops as nat),
                ..old(self)@
            }));
        }
    }

    /// Renders the token as expression text, per the rules of
    /// [`render_model`].
    pub fn to_str(&self, show_stack_output: bool) -> (r: String)
        requires
            wf_model(self@),
        ensures
            r@ == render_model(self@, show_stack_output),
        decreases *self,
    {
        if !(self.token_type == TokenType::Opcode) {
            return self.value.clone();
        }
        let op = self.opcode.as_ref().unwrap();
        if show_stack_output && op.output.is_some() {
            return op.output.as_ref().unwrap().clone();
        }
        let sep: String = match &op.sign {
            Some(sign) => {
                let mut s = String::new();
                s.append(" ");
                s.append(sign.as_str());
                s.append(" ");
                proof {
                    reveal_strlit(" ");
                    assert(s@ =~= sep_for(op@));
                }
                s
            },
            None => {
                let mut s = String::new();
                s.append(", ");
                proof {
                    reveal_strlit(", ");
                    assert(s@ =~= sep_for(op@));
                }
                s
            },
        };
        let n = self.operands.len();
        proof {
            lemma_views_of(self.operands@);
        }
        let mut joined = String::new();
        let mut i: usize = 0;
        while i < n
            invariant
                wf_model(self@),
                self.token_type == TokenType::Opcode,
                self.opcode is Some,
                op == &self.opcode->Some_0,
                n == self.operands@.len(),
                n == self@.operands.len(),
                forall|j: int| 0 <= j < n ==> views_of(self.operands@)[j] == self.operands@[j]@,
                i <= n,
                sep@ == sep_for(op@),
                joined@ =~= render_list(
                    self@.operands.subrange(0, i as int),
                    sep_for(op@),
                    show_stack_output,
                ),
            decreases n - i,
        {
            if i > 0 {
                joined.append(sep.as_str());
            }
            proof {
                assert(self@.operands == views_of(self.operands@));
                assert(self@.operands[i as int] == self.operands@[i as int]@);
                assert(wf_model(self@.operands[i as int]));
            }
            let piece = self.operands[i].to_str(show_stack_output);
            joined.append(piece.as_str());
            proof {
                let pre = self@.operands.subrange(0, i as int);
                assert(self@.operands.subrange(0, i + 1) =~= pre.push(self@.operands[i as int]));
                lemma_render_list_snoc(
                    pre,
                    self@.operands[i as int],
                    sep_for(op@),
                    show_stack_output,
                );
            }
            i = i + 1;
        }
        proof {
            assert(self@.operands.subrange(0, n as int) =~= self@.operands);
        }
        match &op.sign {
            Some(_) => joined,
            None => {
                let mut out = to_lowercase(op.name.as_str());
                out.append("(");
                out.append(joined.as_str());
                out.append(")");
                proof {
                    reveal_strlit("(");
                    reveal_strlit(")");
                    assert(out@ =~= render_model(self@, show_stack_output));
                }
                out
            },
        }
    }
}

} // verus!
