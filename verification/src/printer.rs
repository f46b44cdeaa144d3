//! The back half of the pipeline: selecting each function's root tokens
//! (those never consumed as an operand) and emitting the printable lines,
//! one heading per function followed by one rendered line per root, in
//! program order or reversed.

use vstd::prelude::*;
use crate::function::Function;
use crate::function::FunctionModel;
use crate::function::function_views;
use crate::function::well_bound_log;
use crate::opcodes::OpcodeModel;
use crate::opcodes::Registry;
use crate::parser::StructuralError;
use crate::parser::bind_log;
use crate::parser::first_failing;
use crate::parser::first_underflow;
use crate::parser::has_underflow;
use crate::parser::parse;
use crate::parser::parsed_segments;
use crate::stack::Stack;
use crate::token::TokenModel;
use crate::token::TokenType;
use crate::token::arity_model;
use crate::token::lemma_bound_is_wf;
use crate::token::render_model;
use crate::token::wf_model;

verus! {

/// Whether a function's root lines print in program order (`Left`) or in
/// reverse program order (`Right`).
#[derive(Clone, Copy, PartialEq, Eq, Structural, Debug)]
pub enum StackOrder {
    Left,
    Right,
}

/// Position `q` is a direct operand of some instruction before position
/// `pmax`: instruction `p` binds exactly the positions `p - arity .. p`.
pub open spec fn consumed_by(log: Seq<TokenModel>, q: int, pmax: int) -> bool {
    exists|p: int|
        q < p < pmax && (#[trigger] log[p]).token_type == TokenType::Opcode && p - arity_model(
            log[p],
        ) <= q
}

/// Position `q` is a direct operand of some later instruction.
pub open spec fn consumed(log: Seq<TokenModel>, q: int) -> bool {
    consumed_by(log, q, log.len() as int)
}

/// A root: a log position never consumed as an operand; the unit of
/// printed output.
pub open spec fn is_root(log: Seq<TokenModel>, q: int) -> bool {
    0 <= q < log.len() && !consumed(log, q)
}

/// Scanning one position further either finds a consumer at `pmax` or
/// changes nothing.
proof fn lemma_consumed_step(log: Seq<TokenModel>, q: int, pmax: int)
    ensures
        consumed_by(log, q, pmax + 1) <==> (consumed_by(log, q, pmax) || (q < pmax
            && log[pmax].token_type == TokenType::Opcode && pmax - arity_model(log[pmax]) <= q)),
{
    if consumed_by(log, q, pmax + 1) {
        let p = choose|p: int|
            q < p < pmax + 1 && (#[trigger] log[p]).token_type == TokenType::Opcode && p
                - arity_model(log[p]) <= q;
        if p < pmax {
            assert(consumed_by(log, q, pmax));
        }
    }
}

/// The root positions among the first `n` log entries, ascending.
pub open spec fn roots_upto(log: Seq<TokenModel>, n: int) -> Seq<int>
    decreases n,
{
    if n <= 0 {
        Seq::empty()
    } else if consumed(log, n - 1) {
        roots_upto(log, n - 1)
    } else {
        roots_upto(log, n - 1).push(n - 1)
    }
}

/// All root positions of the log, ascending.
pub open spec fn root_positions(log: Seq<TokenModel>) -> Seq<int> {
    roots_upto(log, log.len() as int)
}

/// `roots_upto` lists exactly the unconsumed positions below `n`, in
/// ascending order.
pub proof fn lemma_roots_upto(log: Seq<TokenModel>, n: int)
    ensures
        forall|k: int|
            0 <= k < roots_upto(log, n).len() ==> 0 <= #[trigger] roots_upto(log, n)[k] < n
                && !consumed(log, roots_upto(log, n)[k]),
        forall|k1: int, k2: int|
            0 <= k1 < k2 < roots_upto(log, n).len() ==> #[trigger] roots_upto(log, n)[k1]
                < #[trigger] roots_upto(log, n)[k2],
        forall|q: int| 0 <= q < n && !consumed(log, q) ==> roots_upto(log, n).contains(q),
    decreases n,
{
    if n > 0 {
        lemma_roots_upto(log, n - 1);
        let prev = roots_upto(log, n - 1);
        assert forall|k1: int, k2: int|
            0 <= k1 < k2 < roots_upto(log, n).len() implies #[trigger] roots_upto(log, n)[k1]
            < #[trigger] roots_upto(log, n)[k2] by {
            if !consumed(log, n - 1) {
                assert(roots_upto(log, n) == prev.push(n - 1));
                if k2 < prev.len() {
                    assert(prev[k1] < prev[k2]);
                } else {
                    assert(roots_upto(log, n)[k2] == n - 1);
                    assert(roots_upto(log, n)[k1] == prev[k1]);
                    assert(prev[k1] < n - 1);
                }
            }
        }
        assert forall|q: int| 0 <= q < n && !consumed(log, q) implies roots_upto(log, n).contains(
            q,
        ) by {
            if q < n - 1 {
                let k = choose|k: int|
                    0 <= k < roots_upto(log, n - 1).len() && #[trigger] roots_upto(log, n - 1)[k]
                        == q;
                assert(roots_upto(log, n)[k] == q);
            } else {
                assert(roots_upto(log, n)[roots_upto(log, n).len() - 1] == q);
            }
        }
    }
}

/// The rendered root lines of one function's log: one line per root, in
/// program order under `Left`, in reverse program order under `Right`.
pub open spec fn root_lines(log: Seq<TokenModel>, order: StackOrder, show: bool) -> Seq<Seq<char>> {
    let pos = root_positions(log);
    match order {
        StackOrder::Left => Seq::new(pos.len(), |k: int| render_model(log[pos[k]], show)),
        StackOrder::Right => Seq::new(
            pos.len(),
            |k: int| render_model(log[pos[pos.len() - 1 - k]], show),
        ),
    }
}

/// The printed lines of one function: a heading carrying the identifier
/// text, then its root lines.
pub open spec fn function_lines(f: FunctionModel, order: StackOrder, show: bool) -> Seq<Seq<char>> {
    seq![f.name.value] + root_lines(f.stack, order, show)
}

/// The printed lines of the whole program: each function's lines, in
/// segmentation order.
pub open spec fn program_lines(fs: Seq<FunctionModel>, order: StackOrder, show: bool) -> Seq<
    Seq<char>,
>
    decreases fs.len(),
{
    if fs.len() == 0 {
        Seq::empty()
    } else {
        program_lines(fs.subrange(0, fs.len() - 1), order, show) + function_lines(
            fs[fs.len() - 1],
            order,
            show,
        )
    }
}

/// The views of a list of printed lines.
pub open spec fn line_views(ls: Seq<String>) -> Seq<Seq<char>> {
    Seq::new(ls.len(), |i: int| ls[i]@)
}

/// Whether the log entry at `q` is consumed by any later instruction.
fn is_consumed_at(stack: &Stack, q: usize) -> (r: bool)
    requires
        well_bound_log(stack@),
        q < stack@.len(),
    ensures
        r == consumed(stack@, q as int),
{
    let n = stack.len();
    let mut p: usize = q + 1;
    while p < n
        invariant
            well_bound_log(stack@),
            n == stack@.len(),
            q < p <= n,
            !consumed_by(stack@, q as int, p as int),
        decreases n - p,
    {
        let t = stack.get(p).unwrap();
        if t.token_type == TokenType::Opcode {
            let a = match &t.opcode {
                Some(op) => op.pops,
                None => 0,
            };
            proof {
                assert(arity_model(stack@[p as int]) == a);
            }
            if a >= p - q {
                proof {
                    assert(consumed_by(stack@, q as int, stack@.len() as int));
                }
                return true;
            }
        }
        proof {
            lemma_consumed_step(stack@, q as int, p as int);
        }
        p = p + 1;
    }
    false
}

/// Renders one function: its heading line, then one line per root token,
/// in program order under `Left` or reversed under `Right`.
pub fn render_function(f: &Function, order: StackOrder, show_stack_output: bool) -> (r: Vec<String>)
    requires
        well_bound_log(f@.stack),
    ensures
        line_views(r@) == function_lines(f@, order, show_stack_output),
{
    let ghost log = f@.stack;
    let n = f.stack.len();
    let mut rootidx: Vec<usize> = Vec::new();
    let mut q: usize = 0;
    while q < n
        invariant
            well_bound_log(log),
            log == f@.stack,
            n == log.len(),
            q <= n,
            rootidx@.len() == roots_upto(log, q as int).len(),
            forall|k: int|
                0 <= k < rootidx@.len() ==> rootidx@[k] as int == #[trigger] roots_upto(
                    log,
                    q as int,
                )[k],
        decreases n - q,
    {
        if !is_consumed_at(&f.stack, q) {
            rootidx.push(q);
        }
        q = q + 1;
    }
    proof {
        lemma_roots_upto(log, n as int);
    }
    let ghost pos = root_positions(log);
    let m = rootidx.len();
    let mut lines: Vec<String> = Vec::new();
    lines.push(f.name.value.clone());
    let mut k: usize = 0;
    while k < m
        invariant
            well_bound_log(log),
            log == f@.stack,
            n == log.len(),
            pos == root_positions(log),
            m == pos.len(),
            m == rootidx@.len(),
            forall|l: int| 0 <= l < m ==> rootidx@[l] as int == #[trigger] pos[l],
            forall|l: int| 0 <= l < m ==> 0 <= #[trigger] pos[l] < n,
            k <= m,
            lines@.len() == 1 + k,
            lines@[0]@ == f@.name.value,
            forall|l: int|
                0 <= l < k ==> #[trigger] lines@[1 + l]@ == root_lines(
                    log,
                    order,
                    show_stack_output,
                )[l],
        decreases m - k,
    {
        let idx = match order {
            StackOrder::Left => rootidx[k],
            StackOrder::Right => rootidx[m - 1 - k],
        };
        let ghost l: int = match order {
            StackOrder::Left => k as int,
            StackOrder::Right => m - 1 - k as int,
        };
        proof {
            assert(rootidx@[l] as int == pos[l]);
            assert(0 <= pos[l] < n);
            assert(idx as int == pos[l]);
        }
        let t = f.stack.get(idx).unwrap();
        proof {
            lemma_bound_is_wf(log[idx as int]);
        }
        let line = t.to_str(show_stack_output);
        lines.push(line);
        k = k + 1;
    }
    proof {
        assert(line_views(lines@).len() == function_lines(f@, order, show_stack_output).len());
        assert forall|i: int| 0 <= i < line_views(lines@).len() implies line_views(lines@)[i]
            == function_lines(f@, order, show_stack_output)[i] by {
            if i > 0 {
                assert(lines@[1 + (i - 1)]@ == root_lines(log, order, show_stack_output)[i - 1]);
            }
        }
        assert(line_views(lines@) =~= function_lines(f@, order, show_stack_output));
    }
    lines
}

/// Renders the whole program: every function's lines, in segmentation
/// order.
pub fn render_program(functions: &Vec<Function>, order: StackOrder, show_stack_output: bool) -> (r:
    Vec<String>)
    requires
        forall|j: int|
            0 <= j < functions@.len() ==> well_bound_log((#[trigger] functions@[j])@.stack),
    ensures
        line_views(r@) == program_lines(function_views(functions@), order, show_stack_output),
{
    let ghost fs = function_views(functions@);
    let n = functions.len();
    let mut lines: Vec<String> = Vec::new();
    let mut j: usize = 0;
    while j < n
        invariant
            fs == function_views(functions@),
            n == functions@.len(),
            n == fs.len(),
            forall|l: int| 0 <= l < n ==> well_bound_log((#[trigger] functions@[l])@.stack),
            j <= n,
            line_views(lines@) == program_lines(fs.subrange(0, j as int), order, show_stack_output),
        decreases n - j,
    {
        proof {
            assert(fs[j as int] == functions@[j as int]@);
        }
        let mut fl = render_function(&functions[j], order, show_stack_output);
        let ghost old_lines = lines@;
        lines.append(&mut fl);
        proof {
            let cur = fs.subrange(0, j as int + 1);
            assert(cur.subrange(0, cur.len() - 1) =~= fs.subrange(0, j as int));
            assert(cur[cur.len() - 1] == fs[j as int]);
            assert(line_views(lines@) =~= program_lines(cur, order, show_stack_output));
        }
        j = j + 1;
    }
    proof {
        assert(fs.subrange(0, n as int) =~= fs);
    }
    lines
}

/// The functions a word list parses into when no body underflows: each
/// segment's identifier with its bound log.
pub open spec fn parsed_functions(ws: Seq<String>, reg: Seq<OpcodeModel>) -> Seq<FunctionModel> {
    Seq::new(
        parsed_segments(ws, reg).len(),
        |j: int|
            FunctionModel {
                name: parsed_segments(ws, reg)[j].name,
                stack: bind_log(parsed_segments(ws, reg)[j].body),
            },
    )
}

/// The whole pipeline: classifies the words, splits them into functions,
/// binds each function's operands, and renders the printable lines.
///
/// Succeeds exactly when no function body underflows, yielding the lines of
/// every function in segmentation order; otherwise reports the structural
/// error of the first failing function.
pub fn process(
    words: &Vec<String>,
    registry: &Registry,
    order: StackOrder,
    show_stack_output: bool,
) -> (r: Result<Vec<String>, StructuralError>)
    ensures
        r is Ok <==> (forall|j: int|
            0 <= j < parsed_segments(words@, registry@).len() ==> !has_underflow(
                (#[trigger] parsed_segments(words@, registry@)[j]).body,
            )),
        r is Ok ==> line_views(r->Ok_0@) == program_lines(
            parsed_functions(words@, registry@),
            order,
            show_stack_output,
        ),
        r is Err ==> first_failing(parsed_segments(words@, registry@)) < parsed_segments(
            words@,
            registry@,
        ).len() && r->Err_0.function@ == parsed_segments(words@, registry@)[first_failing(
            parsed_segments(words@, registry@),
        )].name.value && r->Err_0.position as int == first_underflow(
            parsed_segments(words@, registry@)[first_failing(
                parsed_segments(words@, registry@),
            )].body,
        ),
{
    match parse(words, registry) {
        Ok(functions) => {
            proof {
                assert forall|j: int| 0 <= j < functions@.len() implies well_bound_log(
                    (#[trigger] functions@[j])@.stack,
                ) by {
                    assert(well_bound_log(function_views(functions@)[j].stack));
                }
                assert(function_views(functions@) =~= parsed_functions(words@, registry@));
            }
            Ok(render_program(&functions, order, show_stack_output))
        },
        Err(e) => Err(e),
    }
}

/// The instruction at `p` references position `j` as one of its direct
/// operands.
pub open spec fn references(log: Seq<TokenModel>, p: int, j: int) -> bool {
    &&& 0 <= p < log.len()
    &&& log[p].token_type == TokenType::Opcode
    &&& 0 <= j < p
    &&& p - arity_model(log[p]) <= j
}

/// Position `q` is reachable from position `p` by following operand
/// references downward through the log.
pub open spec fn reaches(log: Seq<TokenModel>, p: int, q: int) -> bool
    decreases p,
{
    p == q || (exists|j: int| #[trigger] references(log, p, j) && 0 <= j < p && reaches(log, j, q))
}

/// Reachability composes.
pub proof fn lemma_reaches_trans(log: Seq<TokenModel>, a: int, b: int, q: int)
    requires
        reaches(log, a, b),
        reaches(log, b, q),
    ensures
        reaches(log, a, q),
    decreases a,
{
    if a != b {
        let j = choose|j: int| #[trigger] references(log, a, j) && 0 <= j < a && reaches(log, j, b);
        lemma_reaches_trans(log, j, b, q);
        assert(references(log, a, j) && 0 <= j < a && reaches(log, j, q));
    }
}

/// Root coverage: every log position is reachable from some root through
/// the transitive operand closure, so rendering all roots of a function
/// visits every token of that function; no token is both a non-root and
/// unreachable from every root.
pub proof fn lemma_roots_cover_all_tokens(log: Seq<TokenModel>, q: int)
    requires
        0 <= q < log.len(),
    ensures
        exists|r: int| is_root(log, r) && #[trigger] reaches(log, r, q),
    decreases log.len() - q,
{
    if !consumed(log, q) {
        assert(is_root(log, q) && reaches(log, q, q));
    } else {
        let p = choose|p: int|
            q < p < log.len() && (#[trigger] log[p]).token_type == TokenType::Opcode && p
                - arity_model(log[p]) <= q;
        assert(reaches(log, q, q));
        assert(references(log, p, q) && 0 <= q < p && reaches(log, q, q));
        assert(reaches(log, p, q));
        lemma_roots_cover_all_tokens(log, p);
        let r = choose|r: int| is_root(log, r) && #[trigger] reaches(log, r, p);
        lemma_reaches_trans(log, r, p, q);
    }
}

/// Switching the stack order from left to right reverses the root line
/// order of every function but preserves the set of lines.
pub proof fn lemma_stack_order_reversal(log: Seq<TokenModel>, show: bool)
    ensures
        root_lines(log, StackOrder::Right, show) == root_lines(log, StackOrder::Left, show)
            .reverse(),
        forall|l: Seq<char>|
            root_lines(log, StackOrder::Right, show).contains(l) <==> root_lines(
                log,
                StackOrder::Left,
                show,
            ).contains(l),
{
    let left = root_lines(log, StackOrder::Left, show);
    let right = root_lines(log, StackOrder::Right, show);
    assert(right =~= left.reverse());
    assert forall|l: Seq<char>| right.contains(l) implies left.contains(l) by {
        let k = choose|k: int| 0 <= k < right.len() && right[k] == l;
        assert(left[left.len() - 1 - k] == l);
    }
    assert forall|l: Seq<char>| left.contains(l) implies right.contains(l) by {
        let k = choose|k: int| 0 <= k < left.len() && left[k] == l;
        assert(right[right.len() - 1 - k] == l);
    }
}

} // verus!
