//! AST passes over parsed expressions: the stack-depth check and the
//! expression identifier.
use vstd::prelude::*;
use vstd::string::StringSliceAdditionalSpecFns;
use crate::costs::{charge_ok, fits, sum, CostErrors, ExecutionCost, LimitedCostTracker};
use crate::errors::ParseErrors;
use crate::lexer::{failure_is, lex_spec, lexed_is, LexItem};
use crate::parser::{parse, parse_spec, parses_to, PreSymbolicExpression, PreSymbolicExpressionType};
use crate::definition_sorter::{definition_name, definition_order, depends_on, has_topological_order, is_permutation, placed_before};
use crate::sugar::{expand_all, expands, SymbolicExpression};
use crate::types::QualifiedContractIdentifier;

verus! {

broadcast use vstd::seq::axiom_seq_index_decreases, vstd::std_specs::vec::axiom_vec_index_decreases;

/// Deepest nesting of lists and tuples that the passes accept.
pub const MAX_EXPRESSION_DEPTH: u64 = 64;

/// The ids of `e` and everything inside it, in document order.
pub open spec fn ids_of(e: PreSymbolicExpression) -> Seq<u64>
    decreases e, 1int,
{
    match e.pre_expr {
        PreSymbolicExpressionType::List(ch) => seq![e.id] + ids_seq(ch@, ch@.len() as int),
        PreSymbolicExpressionType::Tuple(ch) => seq![e.id] + ids_seq(ch@, ch@.len() as int),
        _ => seq![e.id],
    }
}

/// The ids of the first `k` of `es` and everything inside them, in order.
pub open spec fn ids_seq(es: Seq<PreSymbolicExpression>, k: int) -> Seq<u64>
    decreases es, 0int, k,
{
    if k <= 0 || k > es.len() {
        Seq::empty()
    } else {
        ids_seq(es, k - 1) + ids_of(es[k - 1])
    }
}

/// Whether `a` and `b` differ at most in their ids, at any depth.
pub open spec fn same_but_ids(a: PreSymbolicExpression, b: PreSymbolicExpression) -> bool
    decreases a, 1int,
{
    a.span == b.span && match a.pre_expr {
        PreSymbolicExpressionType::List(ca) => b.pre_expr matches PreSymbolicExpressionType::List(cb)
            && same_seq(ca@, cb@, ca@.len() as int) && ca@.len() == cb@.len(),
        PreSymbolicExpressionType::Tuple(ca) => b.pre_expr matches PreSymbolicExpressionType::Tuple(cb)
            && same_seq(ca@, cb@, ca@.len() as int) && ca@.len() == cb@.len(),
        _ => a.pre_expr == b.pre_expr,
    }
}

/// Whether the first `k` of `as_` and `bs` differ at most in their ids.
pub open spec fn same_seq(as_: Seq<PreSymbolicExpression>, bs: Seq<PreSymbolicExpression>, k: int) -> bool
    decreases as_, 0int, k,
{
    if k <= 0 {
        true
    } else if k > as_.len() || k > bs.len() {
        false
    } else {
        same_seq(as_, bs, k - 1) && same_but_ids(as_[k - 1], bs[k - 1])
    }
}

/// The ids `from`, `from + 1`, ... : `n` of them.
pub open spec fn id_range(from: nat, n: nat) -> Seq<u64> {
    Seq::new(n, |i: int| (from + i) as u64)
}

proof fn lemma_ids_seq_prefix(a: Seq<PreSymbolicExpression>, b: Seq<PreSymbolicExpression>, k: int)
    requires
        0 <= k <= a.len(),
        k <= b.len(),
        a.subrange(0, k) == b.subrange(0, k),
    ensures
        ids_seq(a, k) == ids_seq(b, k),
        same_seq(a, a, k) == same_seq(b, b, k),
    decreases k,
{
    if k > 0 {
        assert(a.subrange(0, k - 1) =~= a.subrange(0, k).subrange(0, k - 1));
        assert(b.subrange(0, k - 1) =~= b.subrange(0, k).subrange(0, k - 1));
        assert(a[k - 1] == a.subrange(0, k)[k - 1]);
        assert(b[k - 1] == b.subrange(0, k)[k - 1]);
        lemma_ids_seq_prefix(a, b, k - 1);
    }
}

proof fn lemma_same_seq_prefix(a: Seq<PreSymbolicExpression>, a2: Seq<PreSymbolicExpression>, b: Seq<PreSymbolicExpression>, b2: Seq<PreSymbolicExpression>, k: int)
    requires
        0 <= k <= a.len(),
        k <= b.len(),
        k <= a2.len(),
        k <= b2.len(),
        a.subrange(0, k) == a2.subrange(0, k),
        b.subrange(0, k) == b2.subrange(0, k),
    ensures
        same_seq(a, b, k) == same_seq(a2, b2, k),
    decreases k,
{
    if k > 0 {
        assert(a[k - 1] == a.subrange(0, k)[k - 1]);
        assert(a2[k - 1] == a2.subrange(0, k)[k - 1]);
        assert(b[k - 1] == b.subrange(0, k)[k - 1]);
        assert(b2[k - 1] == b2.subrange(0, k)[k - 1]);
        assert(a.subrange(0, k - 1) =~= a.subrange(0, k).subrange(0, k - 1));
        assert(a2.subrange(0, k - 1) =~= a2.subrange(0, k).subrange(0, k - 1));
        assert(b.subrange(0, k - 1) =~= b.subrange(0, k).subrange(0, k - 1));
        assert(b2.subrange(0, k - 1) =~= b2.subrange(0, k).subrange(0, k - 1));
        lemma_same_seq_prefix(a, a2, b, b2, k - 1);
    }
}

proof fn lemma_ids_seq_len_grows(es: Seq<PreSymbolicExpression>, j: int, k: int)
    requires
        0 <= j <= k <= es.len(),
    ensures
        ids_seq(es, j).len() <= ids_seq(es, k).len(),
    decreases k - j,
{
    if j < k {
        lemma_ids_seq_len_grows(es, j, k - 1);
    }
}

/// Numbers `e` and everything inside it from `next` on, in document order;
/// `None` when the ids would pass `u64::MAX`.
pub fn identify(e: PreSymbolicExpression, next: u64) -> (r: Option<(PreSymbolicExpression, u64)>)
    ensures
        r matches Some((x, after)) ==> {
            &&& ids_of(x) == id_range(next as nat, ids_of(e).len())
            &&& after == next + ids_of(e).len()
            &&& same_but_ids(e, x)
        },
        r is None ==> next + ids_of(e).len() > u64::MAX,
    decreases e, 1int,
{
    let ghost e0 = e;
    let PreSymbolicExpression { pre_expr, id: _, span } = e;
    let after_self = match next.checked_add(1) {
        Some(n) => n,
        None => return None,
    };
    match pre_expr {
        PreSymbolicExpressionType::List(ch) => {
            match identify_seq(ch, after_self) {
                Some((ch2, after)) => {
                    let x = PreSymbolicExpression { pre_expr: PreSymbolicExpressionType::List(ch2), id: next, span };
                    assert(ids_of(x) =~= id_range(next as nat, ids_of(e0).len()));
                    Some((x, after))
                },
                None => None,
            }
        },
        PreSymbolicExpressionType::Tuple(ch) => {
            match identify_seq(ch, after_self) {
                Some((ch2, after)) => {
                    let x = PreSymbolicExpression { pre_expr: PreSymbolicExpressionType::Tuple(ch2), id: next, span };
                    assert(ids_of(x) =~= id_range(next as nat, ids_of(e0).len()));
                    Some((x, after))
                },
                None => None,
            }
        },
        other => {
            let x = PreSymbolicExpression { pre_expr: other, id: next, span };
            assert(ids_of(x) =~= id_range(next as nat, 1));
            Some((x, after_self))
        },
    }
}

/// Numbers each of `es` and everything inside them from `next` on.
pub fn identify_seq(es: Vec<PreSymbolicExpression>, next: u64) -> (r: Option<(Vec<PreSymbolicExpression>, u64)>)
    ensures
        r matches Some((xs, after)) ==> {
            &&& xs@.len() == es@.len()
            &&& ids_seq(xs@, xs@.len() as int) == id_range(next as nat, ids_seq(es@, es@.len() as int).len())
            &&& after == next + ids_seq(es@, es@.len() as int).len()
            &&& same_seq(es@, xs@, es@.len() as int)
        },
        r is None ==> next + ids_seq(es@, es@.len() as int).len() > u64::MAX,
    decreases es, 0int, 0int,
{
    let ghost items = es@;
    let mut pending = es;
    let mut rev: Vec<PreSymbolicExpression> = Vec::new();
    while pending.len() > 0
        invariant
            items == es@,
            pending@.len() + rev@.len() == items.len(),
            pending@ == items.subrange(0, pending@.len() as int),
            forall|j: int| 0 <= j < rev@.len() ==> rev@[j] == items[items.len() - 1 - j],
        decreases pending@.len(),
    {
        let x = pending.pop().unwrap();
        rev.push(x);
    }
    let mut out: Vec<PreSymbolicExpression> = Vec::new();
    let mut cur = next;
    while rev.len() > 0
        invariant
            items == es@,
            rev@.len() + out@.len() == items.len(),
            forall|j: int| 0 <= j < rev@.len() ==> rev@[j] == items[items.len() - 1 - j],
            ids_seq(out@, out@.len() as int) == id_range(next as nat, ids_seq(items, out@.len() as int).len()),
            cur == next + ids_seq(items, out@.len() as int).len(),
            same_seq(items, out@, out@.len() as int),
        decreases rev@.len(),
    {
        let ghost k = out@.len() as int;
        let x = rev.pop().unwrap();
        assert(x == items[k]);
        assert(decreases_to!(es => items[k]));
        match identify(x, cur) {
            None => {
                proof {
                    assert(ids_seq(items, k + 1) == ids_seq(items, k) + ids_of(items[k]));
                    lemma_ids_seq_len_grows(items, k + 1, items.len() as int);
                }
                return None;
            },
            Some((y, after)) => {
                let ghost before = out@;
                out.push(y);
                proof {
                    assert(out@.subrange(0, k) =~= before.subrange(0, k));
                    assert(before.subrange(0, k) =~= before);
                    lemma_ids_seq_prefix(out@, before, k);
                    lemma_same_seq_prefix(items, items, out@, before, k);
                    assert(ids_seq(items, k + 1) == ids_seq(items, k) + ids_of(items[k]));
                    assert(ids_seq(out@, k + 1) == ids_seq(out@, k) + ids_of(y));
                    assert(ids_seq(out@, k + 1) =~= id_range(next as nat, ids_seq(items, k + 1).len()));
                }
                cur = after;
            },
        }
    }
    Some((out, cur))
}

/// Numbers a program's expressions 1, 2, 3, ... in document order.
pub fn identify_all(exprs: Vec<PreSymbolicExpression>) -> (r: Option<Vec<PreSymbolicExpression>>)
    ensures
        r matches Some(xs) ==> ids_seq(xs@, xs@.len() as int) == id_range(1, ids_seq(exprs@, exprs@.len() as int).len())
            && same_seq(exprs@, xs@, exprs@.len() as int) && xs@.len() == exprs@.len(),
        r is Some ==> ids_seq(exprs@, exprs@.len() as int).len() < u64::MAX,
        ids_seq(exprs@, exprs@.len() as int).len() < u64::MAX ==> r is Some,
{
    match identify_seq(exprs, 1) {
        Some((xs, _)) => Some(xs),
        None => None,
    }
}

/// The ids of an AST that `build_ast` or `ast_from_pre_expressions`
/// returns strictly increase in document order and are exactly `1..=n`.
pub proof fn lemma_ast_ids_increase(contract_identifier: QualifiedContractIdentifier, pre: Seq<PreSymbolicExpression>, ast: ContractAST)
    requires
        ast_outcome(contract_identifier, pre, Ok(ast)),
    ensures
        ({
            let ids = ids_seq(ast.pre_expressions@, ast.pre_expressions@.len() as int);
            &&& forall|i: int, j: int| 0 <= i < j < ids.len() ==> ids[i] < ids[j]
            &&& ids.len() > 0 ==> ids[0] == 1
        }),
{
    let n = ids_seq(pre, pre.len() as int).len();
    lemma_ids_are_one_to_n(ids_seq(ast.pre_expressions@, ast.pre_expressions@.len() as int), n);
}

/// Ids given by `identify_all` strictly increase in document order and are
/// exactly `1..=n`.
pub proof fn lemma_ids_are_one_to_n(ids: Seq<u64>, n: nat)
    requires
        ids == id_range(1, n),
        n < u64::MAX,
    ensures
        forall|i: int, j: int| 0 <= i < j < ids.len() ==> ids[i] < ids[j],
        ids.len() == n,
        n > 0 ==> ids[0] == 1 && ids[n - 1] == n,
{
}


/// How deeply lists and tuples nest in `e`: 0 for a leaf.
pub open spec fn nesting(e: PreSymbolicExpression) -> nat
    decreases e, 1int,
{
    match e.pre_expr {
        PreSymbolicExpressionType::List(ch) => 1 + nesting_seq(ch@, ch@.len() as int),
        PreSymbolicExpressionType::Tuple(ch) => 1 + nesting_seq(ch@, ch@.len() as int),
        _ => 0,
    }
}

/// The deepest nesting among the first `k` of `es`.
pub open spec fn nesting_seq(es: Seq<PreSymbolicExpression>, k: int) -> nat
    decreases es, 0int, k,
{
    if k <= 0 || k > es.len() {
        0
    } else {
        let a = nesting_seq(es, k - 1);
        let b = nesting(es[k - 1]);
        if a > b { a } else { b }
    }
}

/// Whether `e` nests no deeper than `limit`, given `depth` levels around it.
fn depth_ok(e: &PreSymbolicExpression, depth: u64, limit: u64) -> (r: bool)
    requires
        depth <= limit,
    ensures
        r <==> depth + nesting(*e) <= limit,
    decreases *e, 1int,
{
    match &e.pre_expr {
        PreSymbolicExpressionType::List(ch) => depth < limit && depth_ok_seq(ch, depth + 1, limit),
        PreSymbolicExpressionType::Tuple(ch) => depth < limit && depth_ok_seq(ch, depth + 1, limit),
        _ => true,
    }
}

/// Whether each of `es` nests no deeper than `limit`, given `depth` around them.
fn depth_ok_seq(es: &Vec<PreSymbolicExpression>, depth: u64, limit: u64) -> (r: bool)
    requires
        depth <= limit,
    ensures
        r <==> depth + nesting_seq(es@, es@.len() as int) <= limit,
    decreases *es, 0int, 0int,
{
    let mut i: usize = 0;
    while i < es.len()
        invariant
            i <= es@.len(),
            depth <= limit,
            depth + nesting_seq(es@, i as int) <= limit,
        decreases es@.len() - i,
    {
        assert(decreases_to!(*es => es@[i as int]));
        if !depth_ok(&es[i], depth, limit) {
            proof { lemma_nesting_seq_grows(es@, i as int + 1, es@.len() as int); }
            return false;
        }
        i = i + 1;
    }
    true
}

proof fn lemma_nesting_seq_grows(es: Seq<PreSymbolicExpression>, j: int, k: int)
    requires
        0 <= j <= k <= es.len(),
    ensures
        nesting_seq(es, j) <= nesting_seq(es, k),
    decreases k - j,
{
    if j < k {
        lemma_nesting_seq_grows(es, j, k - 1);
    }
}

/// Rejects programs whose lists and tuples nest deeper than
/// `MAX_EXPRESSION_DEPTH`.
pub fn check_stack_depth(exprs: &Vec<PreSymbolicExpression>) -> (r: Result<(), ParseErrors>)
    ensures
        r is Ok <==> nesting_seq(exprs@, exprs@.len() as int) <= MAX_EXPRESSION_DEPTH,
        r is Err ==> r == Err::<(), ParseErrors>(ParseErrors::ExpressionStackDepthTooDeep),
{
    if depth_ok_seq(exprs, 0, MAX_EXPRESSION_DEPTH) {
        Ok(())
    } else {
        Err(ParseErrors::ExpressionStackDepthTooDeep)
    }
}

/// A contract's parsed and numbered expressions.
pub struct ContractAST {
    pub contract_identifier: QualifiedContractIdentifier,
    /// The numbered forms, before sugar expansion.
    pub pre_expressions: Ghost<Seq<PreSymbolicExpression>>,
    /// The forms with sugared names expanded under the contract's issuer.
    pub expressions: Vec<SymbolicExpression>,
    /// The order in which to evaluate the top-level forms, by index.
    pub top_level_expression_sorting: Vec<usize>,
}

/// Whether `r` is what the AST passes give on the parsed forms `pre`:
/// nesting too deep, definitions in a cycle, ids run out, or an AST whose
/// forms are `pre` numbered 1, 2, 3, ... with an order that puts every
/// form after the definitions it refers to.
pub open spec fn ast_outcome(
    contract_identifier: QualifiedContractIdentifier,
    pre: Seq<PreSymbolicExpression>,
    r: Result<ContractAST, ParseErrors>,
) -> bool {
    &&& nesting_seq(pre, pre.len() as int) > MAX_EXPRESSION_DEPTH ==> r == Err::<ContractAST, ParseErrors>(
        ParseErrors::ExpressionStackDepthTooDeep,
    )
    &&& nesting_seq(pre, pre.len() as int) <= MAX_EXPRESSION_DEPTH && !has_topological_order(pre) ==> (r is Err
        && r->Err_0 is CircularReference)
    &&& nesting_seq(pre, pre.len() as int) <= MAX_EXPRESSION_DEPTH && has_topological_order(pre) && ids_seq(
        pre,
        pre.len() as int,
    ).len() < u64::MAX ==> r is Ok
    &&& r is Ok ==> {
        let ast = r->Ok_0;
        &&& ast.contract_identifier == contract_identifier
        &&& ast.pre_expressions@.len() == pre.len()
        &&& same_seq(pre, ast.pre_expressions@, pre.len() as int)
        &&& ids_seq(ast.pre_expressions@, ast.pre_expressions@.len() as int) == id_range(
            1,
            ids_seq(pre, pre.len() as int).len(),
        )
        &&& ids_seq(pre, pre.len() as int).len() < u64::MAX
        &&& ast.expressions@.len() == pre.len()
        &&& forall|i: int| 0 <= i < pre.len() ==> #[trigger] expands(ast.pre_expressions@[i], ast.expressions@[i], contract_identifier.issuer)
        &&& nesting_seq(pre, pre.len() as int) <= MAX_EXPRESSION_DEPTH
        &&& is_permutation(ast.top_level_expression_sorting@, pre.len())
        &&& forall|a: int, j: int|
            0 <= a < ast.top_level_expression_sorting@.len() && 0 <= j < pre.len()
                && #[trigger] depends_on(pre, ast.top_level_expression_sorting@[a] as int, j)
                ==> placed_before(ast.top_level_expression_sorting@, a, j as usize)
    }
}

/// Runs the AST passes on parsed forms: checks the nesting depth, orders
/// the top-level forms so that each comes after the definitions it refers
/// to, and numbers the expressions.
pub fn ast_from_pre_expressions(contract_identifier: QualifiedContractIdentifier, pre: Vec<PreSymbolicExpression>) -> (r: Result<ContractAST, ParseErrors>)
    ensures
        ast_outcome(contract_identifier, pre@, r),
{
    let ghost pv = pre@;
    match check_stack_depth(&pre) {
        Ok(()) => {},
        Err(e) => return Err(e),
    }
    let sorting = match definition_order(&pre) {
        Ok(o) => o,
        Err(left) => return Err(ParseErrors::CircularReference(cycle_names(&pre, &left))),
    };
    match identify_all(pre) {
        Some(xs) => {
            let ghost numbered = xs@;
            let issuer = contract_identifier.issuer;
            let expressions = expand_all(xs, issuer);
            Ok(ContractAST {
                contract_identifier,
                pre_expressions: Ghost(numbered),
                expressions,
                top_level_expression_sorting: sorting,
            })
        },
        None => Err(ParseErrors::ProgramTooLarge),
    }
}

/// Charges one unit of runtime per source byte, lexes and parses, then runs
/// the AST passes (`ast_from_pre_expressions`) on the parsed forms.
pub fn build_ast(
    contract_identifier: QualifiedContractIdentifier,
    source_code: &str,
    cost_track: &mut LimitedCostTracker,
) -> (r: Result<ContractAST, ParseErrors>)
    ensures
        final(cost_track).spec_limit() == old(cost_track).spec_limit(),
        ({
            let c = ExecutionCost::runtime_spec((source_code.spec_bytes().len() as usize) as u64);
            &&& fits(old(cost_track).spec_total(), c) ==> final(cost_track).spec_total() == sum(old(cost_track).spec_total(), c)
            &&& !fits(old(cost_track).spec_total(), c) ==> r == Err::<ContractAST, ParseErrors>(ParseErrors::CostOverflow)
                && final(cost_track).spec_total() == old(cost_track).spec_total()
            &&& fits(old(cost_track).spec_total(), c) && !charge_ok(old(cost_track).spec_total(), c, old(cost_track).spec_limit())
                ==> r is Err && r->Err_0 is CostBalanceExceeded
            &&& charge_ok(old(cost_track).spec_total(), c, old(cost_track).spec_limit()) ==> match lex_spec(source_code.spec_bytes()) {
                Err(f) => r is Err && failure_is(r->Err_0, source_code.spec_bytes(), f),
                Ok(_) => (exists|items: Seq<(LexItem, u32, u32)>| #[trigger] lexed_is(source_code.spec_bytes(), items)
                    && parse_spec(items) is Err && r == Err::<ContractAST, ParseErrors>(parse_spec(items)->Err_0))
                    || exists|pre: Seq<PreSymbolicExpression>| #[trigger] parses_to(source_code.spec_bytes(), pre)
                    && ast_outcome(contract_identifier, pre, r),
            }
        }),
{
    match cost_track.add_runtime(source_code.len() as u64) {
        Ok(()) => {},
        Err(CostErrors::CostOverflow) => return Err(ParseErrors::CostOverflow),
        Err(CostErrors::CostBalanceExceeded(total, limit)) => return Err(ParseErrors::CostBalanceExceeded(total, limit)),
    }
    let pre = match parse(source_code) {
        Ok(p) => p,
        Err(e) => return Err(e),
    };
    let ghost pv = pre@;
    let r = ast_from_pre_expressions(contract_identifier, pre);
    assert(parses_to(source_code.spec_bytes(), pv));
    r
}

/// The names that the forms at `left` define.
fn cycle_names(exprs: &Vec<PreSymbolicExpression>, left: &Vec<usize>) -> (r: Vec<Vec<u8>>)
    requires
        forall|a: int| 0 <= a < left@.len() ==> (#[trigger] left@[a]) < exprs@.len(),
    ensures
        r@.len() <= left@.len(),
{
    let mut names: Vec<Vec<u8>> = Vec::new();
    let mut a: usize = 0;
    while a < left.len()
        invariant
            a <= left@.len(),
            names@.len() <= a,
            forall|b: int| 0 <= b < left@.len() ==> (#[trigger] left@[b]) < exprs@.len(),
        decreases left@.len() - a,
    {
        match definition_name(&exprs[left[a]]) {
            Some(n) => names.push(n),
            None => {},
        }
        a = a + 1;
    }
    names
}

proof fn lemma_same_nesting(a: PreSymbolicExpression, b: PreSymbolicExpression)
    requires
        same_but_ids(a, b),
    ensures
        nesting(a) == nesting(b),
    decreases a, 1int,
{
    match a.pre_expr {
        PreSymbolicExpressionType::List(ca) => {
            let cb = b.pre_expr->List_0;
            lemma_same_seq_nesting(ca@, cb@, ca@.len() as int);
        },
        PreSymbolicExpressionType::Tuple(ca) => {
            let cb = b.pre_expr->Tuple_0;
            lemma_same_seq_nesting(ca@, cb@, ca@.len() as int);
        },
        _ => {
            assert(!(b.pre_expr is List) && !(b.pre_expr is Tuple));
        },
    }
}

proof fn lemma_same_seq_nesting(as_: Seq<PreSymbolicExpression>, bs: Seq<PreSymbolicExpression>, k: int)
    requires
        same_seq(as_, bs, k),
        as_.len() == bs.len(),
        k <= as_.len(),
    ensures
        nesting_seq(as_, k) == nesting_seq(bs, k),
    decreases as_, 0int, k,
{
    if k > 0 {
        lemma_same_seq_nesting(as_, bs, k - 1);
        lemma_same_nesting(as_[k - 1], bs[k - 1]);
    }
}

} // verus!
