//! The front half of the pipeline: classifying a word list into tokens,
//! splitting the token stream into functions, and binding each function's
//! operands over its own append-only virtual stack.
//!
//! Function boundary policy: a function-marker token starts a new function
//! and becomes its identifier; every other token (return tokens and jump
//! labels included) belongs to the function opened most recently. Tokens
//! before the first marker form an implicit top-level function with a blank
//! identifier, present only when at least one such token exists.

use vstd::prelude::*;
use crate::function::Function;
use crate::function::FunctionModel;
use crate::function::function_views;
use crate::function::well_bound_log;
use crate::opcodes::OpcodeModel;
use crate::opcodes::Registry;
use crate::stack::Stack;
use crate::token::Token;
use crate::token::TokenModel;
use crate::token::TokenType;
use crate::token::arity_model;
use crate::token::blank_model;
use crate::token::bound_model;
use crate::token::bound_operands;
use crate::token::classify_model;
use crate::token::lemma_views_of;
use crate::token::views_of;

verus! {

/// The views of a list of words.
pub open spec fn word_views(ws: Seq<String>) -> Seq<Seq<char>> {
    Seq::new(ws.len(), |i: int| ws[i]@)
}

/// Every word classified, in order.
pub open spec fn classified_model(ws: Seq<Seq<char>>, reg: Seq<OpcodeModel>) -> Seq<TokenModel> {
    Seq::new(ws.len(), |i: int| classify_model(ws[i], reg))
}

/// Classifies every word of the input, in order.
pub fn classify_words(words: &Vec<String>, registry: &Registry) -> (r: Vec<Token>)
    ensures
        views_of(r@) == classified_model(word_views(words@), registry@),
{
    let mut r: Vec<Token> = Vec::new();
    let mut i: usize = 0;
    while i < words.len()
        invariant
            i <= words@.len(),
            r@.len() == i,
            forall|j: int| 0 <= j < i ==> r@[j]@ == classify_model(words@[j]@, registry@),
        decreases words@.len() - i,
    {
        let t = Token::from_string(words[i].as_str(), registry);
        r.push(t);
        i = i + 1;
    }
    proof {
        lemma_views_of(r@);
        assert(views_of(r@) =~= classified_model(word_views(words@), registry@));
    }
    r
}

/// Whether a token opens a new function.
pub open spec fn is_marker(t: TokenModel) -> bool {
    t.token_type == TokenType::Function
}

/// Index of the first function marker, or the length when there is none.
pub open spec fn first_marker(toks: Seq<TokenModel>) -> int
    decreases toks.len(),
{
    if toks.len() == 0 {
        0
    } else if is_marker(toks[0]) {
        0
    } else {
        1 + first_marker(toks.subrange(1, toks.len() as int))
    }
}

/// `first_marker` stays within the sequence.
pub proof fn lemma_first_marker_bounds(toks: Seq<TokenModel>)
    ensures
        0 <= first_marker(toks) <= toks.len(),
    decreases toks.len(),
{
    if toks.len() > 0 && !is_marker(toks[0]) {
        lemma_first_marker_bounds(toks.subrange(1, toks.len() as int));
    }
}

/// `first_marker` is pinned down by its characterisation: `k` non-markers
/// followed by a marker (or the end).
pub proof fn lemma_first_marker_unique(toks: Seq<TokenModel>, k: int)
    requires
        0 <= k <= toks.len(),
        forall|j: int| 0 <= j < k ==> !is_marker(toks[j]),
        k < toks.len() ==> is_marker(toks[k]),
    ensures
        first_marker(toks) == k,
    decreases toks.len(),
{
    if toks.len() > 0 && !is_marker(toks[0]) {
        lemma_first_marker_unique(toks.subrange(1, toks.len() as int), k - 1);
    }
}

/// Mathematical model of a [`Segment`].
#[verifier::ext_equal]
pub struct SegmentModel {
    pub name: TokenModel,
    pub body: Seq<TokenModel>,
}

/// One function's raw material before binding: its identifier token and
/// the tokens of its body, in program order.
pub struct Segment {
    pub name: Token,
    pub body: Vec<Token>,
}

impl View for Segment {
    type V = SegmentModel;

    open spec fn view(&self) -> SegmentModel {
        SegmentModel { name: self.name@, body: views_of(self.body@) }
    }
}

/// The models of a sequence of segments, in order.
pub open spec fn segment_views(segs: Seq<Segment>) -> Seq<SegmentModel> {
    Seq::new(segs.len(), |j: int| segs[j]@)
}

/// How the token stream splits into functions: each marker starts a new
/// function and becomes its identifier; tokens before the first marker form
/// an implicit top-level function with a blank identifier.
pub open spec fn segments_model(toks: Seq<TokenModel>) -> Seq<SegmentModel>
    decreases toks.len(),
    via segments_model_dec
{
    if toks.len() == 0 {
        Seq::empty()
    } else if is_marker(toks[0]) {
        let m = 1 + first_marker(toks.subrange(1, toks.len() as int));
        seq![SegmentModel { name: toks[0], body: toks.subrange(1, m) }] + segments_model(
            toks.subrange(m, toks.len() as int),
        )
    } else {
        let m = first_marker(toks);
        seq![SegmentModel { name: blank_model(), body: toks.subrange(0, m) }] + segments_model(
            toks.subrange(m, toks.len() as int),
        )
    }
}

#[via_fn]
proof fn segments_model_dec(toks: Seq<TokenModel>) {
    if toks.len() > 0 {
        if is_marker(toks[0]) {
            lemma_first_marker_bounds(toks.subrange(1, toks.len() as int));
        } else {
            lemma_first_marker_bounds(toks.subrange(1, toks.len() as int));
            assert(first_marker(toks) >= 1);
        }
    }
}

/// Finds the first marker at or after `from`, or the length when none.
fn find_marker(toks: &Vec<Token>, from: usize) -> (r: usize)
    requires
        from <= toks@.len(),
    ensures
        from <= r <= toks@.len(),
        first_marker(views_of(toks@).subrange(from as int, toks@.len() as int)) == r - from,
    decreases toks@.len() - from,
{
    proof {
        lemma_views_of(toks@);
    }
    let n = toks.len();
    let mut k: usize = from;
    while k < n && !(toks[k].token_type == TokenType::Function)
        invariant
            n == toks@.len(),
            from <= k <= n,
            forall|j: int| 0 <= j < toks@.len() ==> views_of(toks@)[j] == toks@[j]@,
            forall|j: int| from <= j < k ==> !is_marker(views_of(toks@)[j]),
        decreases n - k,
    {
        k = k + 1;
    }
    proof {
        let sub = views_of(toks@).subrange(from as int, n as int);
        lemma_first_marker_unique(sub, k - from);
    }
    k
}

/// Copies `toks[from..to]` into a fresh vector.
fn copy_range(toks: &Vec<Token>, from: usize, to: usize) -> (r: Vec<Token>)
    requires
        from <= to <= toks@.len(),
    ensures
        views_of(r@) == views_of(toks@).subrange(from as int, to as int),
{
    proof {
        lemma_views_of(toks@);
    }
    let mut r: Vec<Token> = Vec::new();
    let mut i: usize = from;
    while i < to
        invariant
            from <= i <= to <= toks@.len(),
            r@.len() == i - from,
            forall|j: int| 0 <= j < toks@.len() ==> views_of(toks@)[j] == toks@[j]@,
            forall|j: int| 0 <= j < i - from ==> r@[j]@ == toks@[from + j]@,
        decreases to - i,
    {
        let t = toks[i].deep_copy();
        r.push(t);
        i = i + 1;
    }
    proof {
        lemma_views_of(r@);
        assert(views_of(r@) =~= views_of(toks@).subrange(from as int, to as int));
    }
    r
}

/// Splits `toks[from..]` into function segments, per [`segments_model`].
fn segment_from(toks: &Vec<Token>, from: usize) -> (r: Vec<Segment>)
    requires
        from <= toks@.len(),
    ensures
        segment_views(r@) == segments_model(
            views_of(toks@).subrange(from as int, toks@.len() as int),
        ),
    decreases toks@.len() - from,
{
    let n = toks.len();
    proof {
        lemma_views_of(toks@);
    }
    let ghost rest = views_of(toks@).subrange(from as int, n as int);
    if from == n {
        let r: Vec<Segment> = Vec::new();
        proof {
            assert(segment_views(r@) =~= segments_model(rest));
        }
        return r;
    }
    if toks[from].token_type == TokenType::Function {
        let m = find_marker(toks, from + 1);
        let name = toks[from].deep_copy();
        let body = copy_range(toks, from + 1, m);
        let mut r = segment_from(toks, m);
        let seg = Segment { name: name, body: body };
        r.insert(0, seg);
        proof {
            assert(rest.subrange(1, (m - from) as int) =~= views_of(toks@).subrange(
                from as int + 1,
                m as int,
            ));
            assert(rest.subrange(1, rest.len() as int) =~= views_of(toks@).subrange(
                from as int + 1,
                n as int,
            ));
            assert(rest.subrange((m - from) as int, rest.len() as int) =~= views_of(
                toks@,
            ).subrange(m as int, n as int));
            assert(segment_views(r@) =~= segments_model(rest));
        }
        r
    } else {
        let m = find_marker(toks, from);
        proof {
            assert(rest[0] == toks@[from as int]@);
            lemma_first_marker_bounds(rest.subrange(1, rest.len() as int));
            assert(first_marker(rest) >= 1);
        }
        let name = Token::new();
        let body = copy_range(toks, from, m);
        let mut r = segment_from(toks, m);
        let seg = Segment { name: name, body: body };
        r.insert(0, seg);
        proof {
            assert(rest.subrange(0, (m - from) as int) =~= views_of(toks@).subrange(
                from as int,
                m as int,
            ));
            assert(rest.subrange((m - from) as int, rest.len() as int) =~= views_of(
                toks@,
            ).subrange(m as int, n as int));
            assert(segment_views(r@) =~= segments_model(rest));
        }
        r
    }
}

/// Arity underflow at position `p`: the opcode there requires more
/// preceding produced values than its function's log holds at that point
/// (the log holds exactly `p` entries when token `p` binds).
pub open spec fn underflow_at(toks: Seq<TokenModel>, p: int) -> bool {
    toks[p].token_type == TokenType::Opcode && arity_model(toks[p]) > p
}

/// Whether any position of the body underflows.
pub open spec fn has_underflow(toks: Seq<TokenModel>) -> bool {
    exists|p: int| 0 <= p < toks.len() && underflow_at(toks, p)
}

/// First underflow position at or after `p`, or the length when none.
pub open spec fn first_underflow_from(toks: Seq<TokenModel>, p: int) -> int
    decreases toks.len() - p,
    when 0 <= p <= toks.len()
{
    if p >= toks.len() {
        toks.len() as int
    } else if underflow_at(toks, p) {
        p
    } else {
        first_underflow_from(toks, p + 1)
    }
}

/// First underflow position, or the length when none.
pub open spec fn first_underflow(toks: Seq<TokenModel>) -> int {
    first_underflow_from(toks, 0)
}

/// `first_underflow` is pinned down by its characterisation.
pub proof fn lemma_first_underflow_unique(toks: Seq<TokenModel>, p: int, k: int)
    requires
        0 <= p <= k <= toks.len(),
        forall|q: int| p <= q < k ==> !underflow_at(toks, q),
        k < toks.len() ==> underflow_at(toks, k),
    ensures
        first_underflow_from(toks, p) == if k < toks.len() {
            k
        } else {
            toks.len() as int
        },
    decreases k - p,
{
    if p < k {
        lemma_first_underflow_unique(toks, p + 1, k);
    }
}

/// One binding step: an opcode token takes the top `arity` log entries as
/// its operands (operand 0 the most recent); any other token is unchanged.
pub open spec fn bind_one(t: TokenModel, log: Seq<TokenModel>) -> TokenModel {
    if t.token_type == TokenType::Opcode {
        TokenModel { operands: bound_operands(log, arity_model(t)), ..t }
    } else {
        t
    }
}

/// The bound log of a function body: in program order, each token binds
/// its operands from the log built so far and is then appended, whatever
/// its category, so later instructions may reference any earlier token.
pub open spec fn bind_log(toks: Seq<TokenModel>) -> Seq<TokenModel>
    decreases toks.len(),
{
    if toks.len() == 0 {
        Seq::empty()
    } else {
        let prev = bind_log(toks.subrange(0, toks.len() - 1));
        prev.push(bind_one(toks[toks.len() - 1], prev))
    }
}

/// The bound log keeps the body's length.
pub proof fn lemma_bind_log_len(toks: Seq<TokenModel>)
    ensures
        bind_log(toks).len() == toks.len(),
    decreases toks.len(),
{
    if toks.len() > 0 {
        lemma_bind_log_len(toks.subrange(0, toks.len() - 1));
    }
}

/// Acyclicity of the operand-reference relation: when no position of the
/// body underflows, every operand of the bound instruction at position `p`
/// is exactly the bound log entry at a strictly earlier position, so
/// following operand references always moves strictly down the log and can
/// never form a cycle.
pub proof fn lemma_operand_references_earlier(toks: Seq<TokenModel>, p: int, i: int)
    requires
        !has_underflow(toks),
        0 <= p < toks.len(),
        bind_log(toks)[p].token_type == TokenType::Opcode,
        0 <= i < bind_log(toks)[p].operands.len(),
    ensures
        0 <= p - 1 - i < p,
        bind_log(toks)[p].operands[i] == bind_log(toks)[p - 1 - i],
    decreases toks.len(),
{
    lemma_bind_log_len(toks);
    let head = toks.subrange(0, toks.len() - 1);
    lemma_bind_log_len(head);
    let prev = bind_log(head);
    if p == toks.len() - 1 {
        assert(bind_log(toks) == prev.push(bind_one(toks[p], prev)));
        assert(toks[p].token_type == TokenType::Opcode);
        assert(!underflow_at(toks, p));
        assert(arity_model(toks[p]) <= p);
        assert(bind_log(toks)[p].operands == bound_operands(prev, arity_model(toks[p])));
        assert(bind_log(toks)[p].operands[i] == prev[p - 1 - i]);
    } else {
        assert(!has_underflow(head)) by {
            if has_underflow(head) {
                let q = choose|q: int| 0 <= q < head.len() && underflow_at(head, q);
                assert(head[q] == toks[q]);
                assert(underflow_at(toks, q));
            }
        }
        assert(bind_log(toks) == prev.push(bind_one(toks[toks.len() - 1], prev)));
        assert(bind_log(toks)[p] == prev[p]);
        lemma_operand_references_earlier(head, p, i);
        assert(bind_log(toks)[p - 1 - i] == prev[p - 1 - i]);
    }
}

/// The fatal binder error: the instruction at `position` (an index into
/// its function's body) required more produced values than the function's
/// log held there. `function` is the identifier text of that function.
#[derive(Debug)]
pub struct StructuralError {
    pub function: String,
    pub position: usize,
}

/// Binds one function body over its own fresh virtual stack. Returns the
/// bound log, or a structural error naming the function and the first
/// underflowing position; it never silently pads missing operands.
pub fn bind_body(body: &Vec<Token>, fname: &Token) -> (r: Result<Stack, StructuralError>)
    requires
        forall|q: int|
            0 <= q < views_of(body@).len() ==> (#[trigger] views_of(body@)[q]).opcode is Some
                && views_of(body@)[q].operands.len() == 0,
    ensures
        r is Ok <==> !has_underflow(views_of(body@)),
        r is Ok ==> r->Ok_0@ == bind_log(views_of(body@)),
        r is Ok ==> well_bound_log(r->Ok_0@),
        r is Err ==> r->Err_0.function@ == fname@.value && r->Err_0.position as int
            == first_underflow(views_of(body@)) && underflow_at(
            views_of(body@),
            r->Err_0.position as int,
        ),
{
    let ghost b = views_of(body@);
    proof {
        lemma_views_of(body@);
    }
    let n = body.len();
    let mut stack = Stack::new();
    let mut p: usize = 0;
    while p < n
        invariant
            n == body@.len(),
            b == views_of(body@),
            b.len() == n,
            forall|j: int| 0 <= j < n ==> b[j] == body@[j]@,
            forall|q: int|
                0 <= q < n ==> (#[trigger] b[q]).opcode is Some && b[q].operands.len() == 0,
            p <= n,
            stack@ == bind_log(b.subrange(0, p as int)),
            stack@.len() == p,
            forall|q: int| 0 <= q < p ==> !underflow_at(b, q),
            well_bound_log(stack@),
        decreases n - p,
    {
        let mut t = body[p].deep_copy();
        let ghost prev = stack@;
        if t.token_type == TokenType::Opcode {
            let a = t.opcode.as_ref().unwrap().pops;
            if stack.len() < a {
                proof {
                    assert(underflow_at(b, p as int));
                    lemma_first_underflow_unique(b, 0, p as int);
                }
                return Err(StructuralError { function: fname.value.clone(), position: p });
            }
            t.set_operands(&stack);
            proof {
                assert(t@ =~= bind_one(b[p as int], prev));
                assert forall|i: int| 0 <= i < t@.operands.len() implies bound_model(
                    #[trigger] t@.operands[i],
                ) by {
                    assert(t@.operands[i] == prev[p - 1 - i]);
                }
                assert(bound_model(t@));
                assert(arity_model(t@) <= p as int);
            }
        } else {
            proof {
                assert(t@ == bind_one(b[p as int], prev));
                assert(!underflow_at(b, p as int));
                assert(bound_model(t@));
            }
        }
        stack.push(t);
        proof {
            let cur = b.subrange(0, p as int + 1);
            assert(cur.subrange(0, cur.len() - 1) =~= b.subrange(0, p as int));
            assert(cur[cur.len() - 1] == b[p as int]);
            assert(stack@ == bind_log(cur));
            lemma_bind_log_len(cur);
        }
        p = p + 1;
    }
    proof {
        assert(b.subrange(0, n as int) =~= b);
    }
    Ok(stack)
}

/// Splits a classified token stream into function segments.
pub fn segment(toks: &Vec<Token>) -> (r: Vec<Segment>)
    ensures
        segment_views(r@) == segments_model(views_of(toks@)),
{
    let r = segment_from(toks, 0);
    proof {
        lemma_views_of(toks@);
        assert(views_of(toks@).subrange(0, toks@.len() as int) =~= views_of(toks@));
    }
    r
}

/// Every token of every segment body came from the stream, so bodies
/// inherit the classifier's guarantees: every token carries an opcode spec
/// and no token is bound yet.
pub proof fn lemma_segment_bodies_classified(toks: Seq<TokenModel>)
    requires
        forall|i: int|
            0 <= i < toks.len() ==> (#[trigger] toks[i]).opcode is Some && toks[i].operands.len()
                == 0,
    ensures
        forall|j: int, q: int|
            0 <= j < segments_model(toks).len() && 0 <= q < segments_model(toks)[j].body.len()
                ==> (#[trigger] segments_model(toks)[j].body[q]).opcode is Some && segments_model(
                toks,
            )[j].body[q].operands.len() == 0,
    decreases toks.len(),
{
    if toks.len() > 0 {
        let segs = segments_model(toks);
        if is_marker(toks[0]) {
            let m = 1 + first_marker(toks.subrange(1, toks.len() as int));
            lemma_first_marker_bounds(toks.subrange(1, toks.len() as int));
            let rest = toks.subrange(m, toks.len() as int);
            lemma_segment_bodies_classified(rest);
            assert forall|j: int, q: int|
                0 <= j < segs.len() && 0 <= q < segs[j].body.len() implies (
            #[trigger] segs[j].body[q]).opcode is Some && segs[j].body[q].operands.len()
                == 0 by {
                if j == 0 {
                    assert(segs[0].body[q] == toks[1 + q]);
                } else {
                    assert(segs[j] == segments_model(rest)[j - 1]);
                }
            }
        } else {
            let m = first_marker(toks);
            lemma_first_marker_bounds(toks);
            lemma_first_marker_bounds(toks.subrange(1, toks.len() as int));
            let rest = toks.subrange(m, toks.len() as int);
            lemma_segment_bodies_classified(rest);
            assert forall|j: int, q: int|
                0 <= j < segs.len() && 0 <= q < segs[j].body.len() implies (
            #[trigger] segs[j].body[q]).opcode is Some && segs[j].body[q].operands.len()
                == 0 by {
                if j == 0 {
                    assert(segs[0].body[q] == toks[q]);
                } else {
                    assert(segs[j] == segments_model(rest)[j - 1]);
                }
            }
        }
    }
}

/// First segment whose body underflows, at or after `j`, or the segment
/// count when none.
pub open spec fn first_failing_from(segs: Seq<SegmentModel>, j: int) -> int
    decreases segs.len() - j,
    when 0 <= j <= segs.len()
{
    if j >= segs.len() {
        segs.len() as int
    } else if has_underflow(segs[j].body) {
        j
    } else {
        first_failing_from(segs, j + 1)
    }
}

/// First segment whose body underflows, or the segment count when none.
pub open spec fn first_failing(segs: Seq<SegmentModel>) -> int {
    first_failing_from(segs, 0)
}

/// `first_failing` is pinned down by its characterisation.
pub proof fn lemma_first_failing_unique(segs: Seq<SegmentModel>, j: int, k: int)
    requires
        0 <= j <= k <= segs.len(),
        forall|l: int| j <= l < k ==> !has_underflow(segs[l].body),
        k < segs.len() ==> has_underflow(segs[k].body),
    ensures
        first_failing_from(segs, j) == if k < segs.len() {
            k
        } else {
            segs.len() as int
        },
    decreases k - j,
{
    if j < k {
        lemma_first_failing_unique(segs, j + 1, k);
    }
}

/// How a word list parses: classified, split into function segments.
pub open spec fn parsed_segments(ws: Seq<String>, reg: Seq<OpcodeModel>) -> Seq<SegmentModel> {
    segments_model(classified_model(word_views(ws), reg))
}

/// The whole front half: classifies the words, splits them into functions,
/// and binds each function's body over its own virtual stack, in order.
///
/// Succeeds exactly when no function body underflows; otherwise reports a
/// structural error naming the first failing function (by its identifier
/// text) and the first underflowing position inside it.
pub fn parse(words: &Vec<String>, registry: &Registry) -> (r: Result<
    Vec<Function>,
    StructuralError,
>)
    ensures
        r is Ok <==> (forall|j: int|
            0 <= j < parsed_segments(words@, registry@).len() ==> !has_underflow(
                (#[trigger] parsed_segments(words@, registry@)[j]).body,
            )),
        r is Ok ==> function_views(r->Ok_0@).len() == parsed_segments(words@, registry@).len()
            && (forall|j: int|
            0 <= j < parsed_segments(words@, registry@).len() ==> (
            #[trigger] function_views(r->Ok_0@)[j]).name == parsed_segments(
                words@,
                registry@,
            )[j].name && function_views(r->Ok_0@)[j].stack == bind_log(
                parsed_segments(words@, registry@)[j].body,
            ) && well_bound_log(function_views(r->Ok_0@)[j].stack)),
        r is Err ==> first_failing(parsed_segments(words@, registry@)) < parsed_segments(
            words@,
            registry@,
        ).len() && r->Err_0.function@ == parsed_segments(words@, registry@)[first_failing(
            parsed_segments(words@, registry@),
        )].name.value && r->Err_0.position as int == first_underflow(
            parsed_segments(words@, registry@)[first_failing(
                parsed_segments(words@, registry@),
            )].body,
        ),
{
    let toks = classify_words(words, registry);
    let segs = segment(&toks);
    let ghost smodels = parsed_segments(words@, registry@);
    proof {
        assert(segment_views(segs@) == smodels);
        assert forall|i: int|
            0 <= i < classified_model(word_views(words@), registry@).len() implies (
        #[trigger] classified_model(word_views(words@), registry@)[i]).opcode is Some
            && classified_model(word_views(words@), registry@)[i].operands.len() == 0 by {}
        lemma_segment_bodies_classified(classified_model(word_views(words@), registry@));
    }
    let n = segs.len();
    let mut fns: Vec<Function> = Vec::new();
    let mut j: usize = 0;
    while j < n
        invariant
            n == segs@.len(),
            segment_views(segs@) == smodels,
            smodels == parsed_segments(words@, registry@),
            smodels.len() == n,
            forall|l: int, q: int|
                0 <= l < smodels.len() && 0 <= q < smodels[l].body.len() ==> (
                #[trigger] smodels[l].body[q]).opcode is Some && smodels[l].body[q].operands.len()
                    == 0,
            j <= n,
            fns@.len() == j,
            forall|l: int|
                0 <= l < j ==> (#[trigger] fns@[l]@).name == smodels[l].name && fns@[l]@.stack
                    == bind_log(smodels[l].body) && well_bound_log(fns@[l]@.stack),
            forall|l: int| 0 <= l < j ==> !has_underflow((#[trigger] smodels[l]).body),
        decreases n - j,
    {
        proof {
            assert(segs@[j as int]@ == smodels[j as int]);
            assert(views_of(segs@[j as int].body@) == smodels[j as int].body);
            assert forall|q: int|
                0 <= q < views_of(segs@[j as int].body@).len() implies (
            #[trigger] views_of(segs@[j as int].body@)[q]).opcode is Some && views_of(
                segs@[j as int].body@,
            )[q].operands.len() == 0 by {
                assert(smodels[j as int].body[q].opcode is Some);
                assert(smodels[j as int].body[q].operands.len() == 0);
            }
        }
        match bind_body(&segs[j].body, &segs[j].name) {
            Ok(stack) => {
                let name = segs[j].name.deep_copy();
                fns.push(Function { name: name, stack: stack });
            },
            Err(e) => {
                proof {
                    lemma_first_failing_unique(smodels, 0, j as int);
                }
                return Err(e);
            },
        }
        j = j + 1;
    }
    proof {
        lemma_first_failing_unique(smodels, 0, n as int);
        assert forall|l: int| 0 <= l < n implies (#[trigger] function_views(fns@)[l]).name
            == smodels[l].name && function_views(fns@)[l].stack == bind_log(smodels[l].body)
            && well_bound_log(function_views(fns@)[l].stack) by {
            assert(function_views(fns@)[l] == fns@[l]@);
        }
    }
    Ok(fns)
}

} // verus!
