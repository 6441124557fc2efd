//! The sugar expander: pre-expressions to canonical symbolic expressions.
//! Principal literals become literal values, `.c` becomes the principal of
//! contract `c` under the current issuer,
//! `.c.n` the field `n` of that contract, and a tuple literal
//! `{k1: v1, k2: v2}` the call `(tuple (k1 v1) (k2 v2))`.
use vstd::prelude::*;
use crate::names::{ClarityName, ContractName};
use crate::parser::{PreSymbolicExpression, PreSymbolicExpressionType, Span};
use crate::types::{PrincipalData, QualifiedContractIdentifier, StandardPrincipalData, TraitIdentifier, Value};

verus! {

broadcast use vstd::seq::axiom_seq_index_decreases, vstd::std_specs::vec::axiom_vec_index_decreases;

#[derive(Debug, PartialEq, Eq)]
pub enum SymbolicExpressionType {
    AtomValue(Value),
    Atom(ClarityName),
    List(Vec<SymbolicExpression>),
    LiteralValue(Value),
    TraitReference(ClarityName),
    Field(TraitIdentifier),
}

/// An expression of the canonical AST, with its id and source span.
#[derive(Debug, PartialEq, Eq)]
pub struct SymbolicExpression {
    pub expr: SymbolicExpressionType,
    pub id: u64,
    pub span: Span,
}

/// Whether `s` is what expanding the leaf `p` under `issuer` gives.
pub open spec fn leaf_expands(p: PreSymbolicExpressionType, s: SymbolicExpressionType, issuer: StandardPrincipalData) -> bool {
    match p {
        PreSymbolicExpressionType::AtomValue(v) => if v is Principal {
            s == SymbolicExpressionType::LiteralValue(v)
        } else {
            s == SymbolicExpressionType::AtomValue(v)
        },
        PreSymbolicExpressionType::Atom(n) => s == SymbolicExpressionType::Atom(n),
        PreSymbolicExpressionType::TraitReference(n) => s == SymbolicExpressionType::TraitReference(n),
        PreSymbolicExpressionType::FieldIdentifier(t) => s == SymbolicExpressionType::Field(t),
        PreSymbolicExpressionType::SugaredContractIdentifier(c) => s matches SymbolicExpressionType::LiteralValue(
            Value::Principal(PrincipalData::Contract(q)),
        ) && q.issuer == issuer && q.name@ == c@,
        PreSymbolicExpressionType::SugaredFieldIdentifier(c, n) => s matches SymbolicExpressionType::Field(t)
            && t.contract_identifier.issuer == issuer && t.contract_identifier.name@ == c@ && t.name@ == n@,
        _ => false,
    }
}

/// Whether `s` is what expanding `p` under `issuer` gives.
pub open spec fn expands(p: PreSymbolicExpression, s: SymbolicExpression, issuer: StandardPrincipalData) -> bool
    decreases p, 3int,
{
    &&& s.id == p.id
    &&& s.span == p.span
    &&& match p.pre_expr {
        PreSymbolicExpressionType::List(ch) => s.expr matches SymbolicExpressionType::List(sc) && sc@.len() == ch@.len()
            && expands_range(ch@, sc@, 0, ch@.len() as int, issuer),
        PreSymbolicExpressionType::Tuple(ch) => s.expr matches SymbolicExpressionType::List(sc) && sc@.len() == 1
            + (ch@.len() + 1) / 2 && sc@[0].expr == SymbolicExpressionType::Atom(tuple_name_of(sc@[0]))
            && tuple_name_of(sc@[0])@ == tuple_word() && pairs_expand(ch@, sc@, ((ch@.len() + 1) / 2) as int, issuer),
        _ => leaf_expands(p.pre_expr, s.expr, issuer),
    }
}

pub open spec fn tuple_name_of(s: SymbolicExpression) -> ClarityName {
    s.expr->Atom_0
}

pub open spec fn tuple_word() -> Seq<u8> {
    seq![116u8, 117, 112, 108, 101]
}

/// Whether `ss[from..k]` are the expansions of `ps[from..k]`.
pub open spec fn expands_range(ps: Seq<PreSymbolicExpression>, ss: Seq<SymbolicExpression>, from: int, k: int, issuer: StandardPrincipalData) -> bool
    decreases ps, 1int, k,
{
    if k <= from || from < 0 {
        true
    } else if k > ps.len() || k > ss.len() {
        false
    } else {
        expands_range(ps, ss, from, k - 1, issuer) && expands(ps[k - 1], ss[k - 1], issuer)
    }
}

/// Whether `ss[1..=k]` are the lists `(key value)` of the first `k` pairs of `ps`.
pub open spec fn pairs_expand(ps: Seq<PreSymbolicExpression>, ss: Seq<SymbolicExpression>, k: int, issuer: StandardPrincipalData) -> bool
    decreases ps, 2int, k,
{
    if k <= 0 {
        true
    } else if 2 * (k - 1) >= ps.len() || k >= ss.len() {
        false
    } else {
        let lo = 2 * (k - 1);
        let hi = if lo + 2 <= ps.len() { lo + 2 } else { lo + 1 };
        &&& pairs_expand(ps, ss, k - 1, issuer)
        &&& ss[k].expr matches SymbolicExpressionType::List(pair) && pair@.len() == hi - lo
            && expands_range_shift(ps, pair@, lo, hi, issuer)
        &&& ss[k].id == 0
        &&& ss[k].span == ps[lo].span
    }
}

/// Whether `ss[i - from]` is the expansion of `ps[i]` for `i` in `from..k`.
pub open spec fn expands_range_shift(ps: Seq<PreSymbolicExpression>, ss: Seq<SymbolicExpression>, from: int, k: int, issuer: StandardPrincipalData) -> bool
    decreases ps, 1int, k,
{
    if k <= from || from < 0 {
        true
    } else if k > ps.len() || k - 1 - from >= ss.len() {
        false
    } else {
        expands_range_shift(ps, ss, from, k - 1, issuer) && expands(ps[k - 1], ss[k - 1 - from], issuer)
    }
}


proof fn lemma_expands_range_prefix(ps: Seq<PreSymbolicExpression>, s1: Seq<SymbolicExpression>, s2: Seq<SymbolicExpression>, from: int, k: int, issuer: StandardPrincipalData)
    requires
        0 <= from <= k,
        k <= s1.len(),
        k <= s2.len(),
        s1.subrange(0, k) == s2.subrange(0, k),
    ensures
        expands_range(ps, s1, from, k, issuer) == expands_range(ps, s2, from, k, issuer),
    decreases k,
{
    if k > from {
        assert(s1[k - 1] == s1.subrange(0, k)[k - 1]);
        assert(s2[k - 1] == s2.subrange(0, k)[k - 1]);
        assert(s1.subrange(0, k - 1) =~= s1.subrange(0, k).subrange(0, k - 1));
        assert(s2.subrange(0, k - 1) =~= s2.subrange(0, k).subrange(0, k - 1));
        lemma_expands_range_prefix(ps, s1, s2, from, k - 1, issuer);
    }
}

proof fn lemma_pairs_prefix(ps: Seq<PreSymbolicExpression>, s1: Seq<SymbolicExpression>, s2: Seq<SymbolicExpression>, k: int, issuer: StandardPrincipalData)
    requires
        0 <= k,
        k < s1.len(),
        k < s2.len(),
        s1.subrange(0, k + 1) == s2.subrange(0, k + 1),
    ensures
        pairs_expand(ps, s1, k, issuer) == pairs_expand(ps, s2, k, issuer),
    decreases k,
{
    if k > 0 {
        assert(s1[k] == s1.subrange(0, k + 1)[k]);
        assert(s2[k] == s2.subrange(0, k + 1)[k]);
        assert(s1.subrange(0, k) =~= s1.subrange(0, k + 1).subrange(0, k));
        assert(s2.subrange(0, k) =~= s2.subrange(0, k + 1).subrange(0, k));
        lemma_pairs_prefix(ps, s1, s2, k - 1, issuer);
    }
}

fn tuple_atom() -> (r: ClarityName)
    ensures
        r@ == tuple_word(),
{
    let v: Vec<u8> = vec![116, 117, 112, 108, 101];
    assert(v@ =~= tuple_word());
    assert(crate::names::is_clarity_name(v@)) by {
        assert(crate::names::is_alpha(v@[0]));
        assert forall|i: int| 1 <= i < v@.len() implies crate::names::is_alnum(#[trigger] v@[i]) || crate::names::is_name_symbol(v@[i]) by {
            assert(v@[1] == 117u8 && v@[2] == 112u8 && v@[3] == 108u8 && v@[4] == 101u8);
        }
    }
    ClarityName::from_bytes(v).unwrap()
}

/// The items of `v` in reverse order, so that popping yields them in order.
fn reversed<T>(v: Vec<T>) -> (r: Vec<T>)
    ensures
        r@.len() == v@.len(),
        forall|j: int| 0 <= j < r@.len() ==> r@[j] == v@[v@.len() - 1 - j],
{
    let ghost items = v@;
    let mut pending = v;
    let mut rev: Vec<T> = Vec::new();
    while pending.len() > 0
        invariant
            pending@.len() + rev@.len() == items.len(),
            pending@ == items.subrange(0, pending@.len() as int),
            forall|j: int| 0 <= j < rev@.len() ==> rev@[j] == items[items.len() - 1 - j],
        decreases pending@.len(),
    {
        let x = pending.pop().unwrap();
        rev.push(x);
    }
    rev
}

/// Expands `p`, with sugared names read under `issuer`.
pub fn expand(p: PreSymbolicExpression, issuer: StandardPrincipalData) -> (r: SymbolicExpression)
    ensures
        expands(p, r, issuer),
    decreases p, 3int,
{
    let PreSymbolicExpression { pre_expr, id, span } = p;
    let expr = match pre_expr {
        PreSymbolicExpressionType::AtomValue(v) => match v {
            Value::Principal(p) => SymbolicExpressionType::LiteralValue(Value::Principal(p)),
            other => SymbolicExpressionType::AtomValue(other),
        },
        PreSymbolicExpressionType::Atom(n) => SymbolicExpressionType::Atom(n),
        PreSymbolicExpressionType::TraitReference(n) => SymbolicExpressionType::TraitReference(n),
        PreSymbolicExpressionType::FieldIdentifier(t) => SymbolicExpressionType::Field(t),
        PreSymbolicExpressionType::SugaredContractIdentifier(c) => SymbolicExpressionType::LiteralValue(
            Value::Principal(PrincipalData::Contract(QualifiedContractIdentifier::new(issuer, c))),
        ),
        PreSymbolicExpressionType::SugaredFieldIdentifier(c, n) => SymbolicExpressionType::Field(
            TraitIdentifier::new(issuer, c, n),
        ),
        PreSymbolicExpressionType::List(ch) => SymbolicExpressionType::List(expand_seq(ch, issuer)),
        PreSymbolicExpressionType::Tuple(ch) => SymbolicExpressionType::List(expand_tuple(ch, issuer)),
    };
    SymbolicExpression { expr, id, span }
}

/// Expands each of `es`.
pub fn expand_seq(es: Vec<PreSymbolicExpression>, issuer: StandardPrincipalData) -> (r: Vec<SymbolicExpression>)
    ensures
        r@.len() == es@.len(),
        expands_range(es@, r@, 0, es@.len() as int, issuer),
    decreases es, 1int, 0int,
{
    let ghost items = es@;
    let mut rev = reversed(es);
    let mut out: Vec<SymbolicExpression> = Vec::new();
    while rev.len() > 0
        invariant
            items == es@,
            rev@.len() + out@.len() == items.len(),
            forall|j: int| 0 <= j < rev@.len() ==> rev@[j] == items[items.len() - 1 - j],
            expands_range(items, out@, 0, out@.len() as int, issuer),
        decreases rev@.len(),
    {
        let ghost k = out@.len() as int;
        let x = rev.pop().unwrap();
        assert(x == items[k]);
        assert(decreases_to!(es => items[k]));
        let y = expand(x, issuer);
        let ghost before = out@;
        out.push(y);
        proof {
            assert(out@.subrange(0, k) =~= before.subrange(0, k));
            assert(before.subrange(0, k) =~= before);
            lemma_expands_range_prefix(items, out@, before, 0, k, issuer);
        }
    }
    out
}

/// Expands a tuple literal's children into `tuple` and one list per pair.
fn expand_tuple(ch: Vec<PreSymbolicExpression>, issuer: StandardPrincipalData) -> (r: Vec<SymbolicExpression>)
    ensures
        r@.len() == 1 + (ch@.len() + 1) / 2,
        r@[0].expr == SymbolicExpressionType::Atom(tuple_name_of(r@[0])),
        tuple_name_of(r@[0])@ == tuple_word(),
        pairs_expand(ch@, r@, ((ch@.len() + 1) / 2) as int, issuer),
    decreases ch, 2int, 0int,
{
    let ghost items = ch@;
    let n = ch.len();
    let mut rev = reversed(ch);
    let head = SymbolicExpression {
        expr: SymbolicExpressionType::Atom(tuple_atom()),
        id: 0,
        span: Span { start_line: 0, start_column: 0, end_line: 0, end_column: 0 },
    };
    let mut out: Vec<SymbolicExpression> = Vec::new();
    out.push(head);
    let mut k: usize = 0;
    while rev.len() > 0
        invariant
            items == ch@,
            n == items.len(),
            rev@.len() + 2 * k >= n,
            rev@.len() > 0 ==> rev@.len() + 2 * k == n,
            rev@.len() == 0 ==> k == (n + 1) / 2,
            forall|j: int| 0 <= j < rev@.len() ==> rev@[j] == items[items.len() - 1 - j],
            out@.len() == 1 + k,
            out@[0].expr == SymbolicExpressionType::Atom(tuple_name_of(out@[0])),
            tuple_name_of(out@[0])@ == tuple_word(),
            pairs_expand(items, out@, k as int, issuer),
        decreases rev@.len(),
    {
        let lo = 2 * k;
        let key = rev.pop().unwrap();
        assert(key == items[lo as int]);
        assert(decreases_to!(ch => items[lo as int]));
        let span = key.span;
        let ek = expand(key, issuer);
        let ghost ekg = ek;
        let mut pair: Vec<SymbolicExpression> = Vec::new();
        pair.push(ek);
        assert(pair@[0] == ekg);
        if rev.len() > 0 {
            let value = rev.pop().unwrap();
            assert(value == items[lo + 1]);
            assert(decreases_to!(ch => items[lo + 1]));
            let ev = expand(value, issuer);
            let ghost evg = ev;
            pair.push(ev);
            assert(pair@[0] == ekg && pair@[1] == evg);
            assert(expands(items[lo + 1], pair@[1], issuer));
        }
        let ghost pv = pair@;
        let ghost before = out@;
        out.push(SymbolicExpression { expr: SymbolicExpressionType::List(pair), id: 0, span });
        proof {
            let hi = if lo + 2 <= n { lo + 2 } else { lo + 1 };
            assert(pv.len() == hi - lo);
            assert(expands_range_shift(items, pv, lo as int, hi as int, issuer)) by {
                assert(expands(items[lo as int], pv[0], issuer));
                assert(expands_range_shift(items, pv, lo as int, lo as int, issuer));
                if hi == lo + 2 {
                    assert(expands_range_shift(items, pv, lo as int, lo + 1, issuer));
                } else {
                    assert(expands_range_shift(items, pv, lo as int, lo as int, issuer));
                }
            }
            assert(out@.subrange(0, k + 1) =~= before.subrange(0, k + 1));
            assert(before.subrange(0, k + 1) =~= before);
            lemma_pairs_prefix(items, out@, before, k as int, issuer);
            assert(out@[0] == before[0]);
        }
        k = k + 1;
    }
    out
}

/// Expands a program's top-level expressions under `issuer`, the
/// publisher of the contract.
pub fn expand_all(exprs: Vec<PreSymbolicExpression>, issuer: StandardPrincipalData) -> (r: Vec<SymbolicExpression>)
    ensures
        r@.len() == exprs@.len(),
        forall|i: int| 0 <= i < r@.len() ==> #[trigger] expands(exprs@[i], r@[i], issuer),
{
    let ghost items = exprs@;
    let r = expand_seq(exprs, issuer);
    proof { lemma_expands_range_all(items, r@, items.len() as int, issuer); }
    r
}

proof fn lemma_expands_range_all(ps: Seq<PreSymbolicExpression>, ss: Seq<SymbolicExpression>, k: int, issuer: StandardPrincipalData)
    requires
        0 <= k <= ps.len(),
        k <= ss.len(),
        expands_range(ps, ss, 0, k, issuer),
    ensures
        forall|i: int| 0 <= i < k ==> #[trigger] expands(ps[i], ss[i], issuer),
    decreases k,
{
    if k > 0 {
        lemma_expands_range_all(ps, ss, k - 1, issuer);
    }
}

} // verus!
