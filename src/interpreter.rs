//! The decisions of evaluation, on plain values: where a variable is found,
//! what an expression asks for, how a call frame ends, and how a
//! definition is bound in its contract.
use vstd::prelude::*;
use crate::callstack::CallStack;
use crate::names::{slice_to_vec, ClarityName};
use crate::sugar::{SymbolicExpression, SymbolicExpressionType};
use crate::types::{compare_bytes, QualifiedContractIdentifier, TraitIdentifier, TypeSignature, Value};

verus! {

/// Runtime failures that carry a call-stack trace.
#[derive(Debug, Clone, Copy, PartialEq, Eq)]
pub enum RuntimeErrorType {
    DivisionByZero,
    ArithmeticOverflow,
    MaxStackDepthReached,
    ShortReturnOutsidePublic,
}

/// Why evaluation stopped.
#[derive(Debug, PartialEq, Eq)]
pub enum EvalError {
    /// A runtime failure, with the call stack where it was first seen.
    Runtime(RuntimeErrorType, Option<Vec<Vec<u8>>>),
    /// A name that cannot be a variable: it starts with a digit or `'`.
    BadSymbolicRepresentation(Vec<u8>),
    UndefinedVariable(Vec<u8>),
    NonFunctionApplication,
    BadFunctionName,
    /// Trait references and fields are not evaluated.
    NotEvaluable,
    /// A name already bound in the contract.
    NameAlreadyUsed(Vec<u8>),
}

/// The variables a scope binds, innermost last, and the contracts it may call.
pub struct LocalContext {
    pub variables: Vec<(ClarityName, Value)>,
    pub callable_contracts: Vec<(ClarityName, QualifiedContractIdentifier)>,
}

/// Where a variable is found.
#[derive(Debug, Clone, Copy, PartialEq, Eq)]
pub enum VariableSource {
    /// A reserved variable (such as `block-height`), whose value is given.
    Reserved,
    /// The local binding at this index; the innermost with that name.
    Local(usize),
    /// The contract-level variable at this index.
    Contract(usize),
    /// The callable contract at this index: the variable is its principal.
    CallableContract(usize),
}

/// Index of the last entry of `vs` named `name`, or -1.
pub open spec fn last_named<T>(vs: Seq<(ClarityName, T)>, name: Seq<u8>) -> int
    decreases vs.len(),
{
    if vs.len() == 0 {
        -1
    } else if vs.last().0@ == name {
        vs.len() - 1
    } else {
        last_named(vs.drop_last(), name)
    }
}

fn find_last<T>(vs: &Vec<(ClarityName, T)>, name: &[u8]) -> (r: Option<usize>)
    ensures
        r matches Some(i) ==> i == last_named(vs@, name@),
        r is None ==> last_named(vs@, name@) == -1,
{
    let mut k: usize = vs.len();
    assert(vs@.subrange(0, vs@.len() as int) =~= vs@);
    while k > 0
        invariant
            k <= vs@.len(),
            last_named(vs@, name@) == last_named(vs@.subrange(0, k as int), name@),
        decreases k,
    {
        let ghost pre = vs@.subrange(0, k as int);
        assert(pre.drop_last() =~= vs@.subrange(0, k - 1));
        if compare_bytes(vs[k - 1].0.as_bytes(), name) == 0 {
            return Some(k - 1);
        }
        k = k - 1;
    }
    assert(vs@.subrange(0, 0) =~= Seq::<(ClarityName, T)>::empty());
    None
}

/// Whether a name cannot be a variable: it starts with a digit or `'`.
pub open spec fn bad_variable_name(name: Seq<u8>) -> bool {
    name.len() > 0 && ((48 <= name[0] && name[0] <= 57) || name[0] == 39)
}

/// Where the variable `name` is found, in this order: reserved variables
/// (`reserved` says whether it is one), the local scope innermost first,
/// the contract's variables, then the callable contracts.
pub fn lookup_variable(
    name: &[u8],
    reserved: bool,
    local: &LocalContext,
    contract_variables: &Vec<(ClarityName, Value)>,
) -> (r: Result<VariableSource, EvalError>)
    ensures
        bad_variable_name(name@) ==> (r is Err && r->Err_0 is BadSymbolicRepresentation),
        !bad_variable_name(name@) && reserved ==> r == Ok::<VariableSource, EvalError>(VariableSource::Reserved),
        !bad_variable_name(name@) && !reserved && last_named(local.variables@, name@) >= 0 ==> r == Ok::<VariableSource, EvalError>(
            VariableSource::Local(last_named(local.variables@, name@) as usize),
        ),
        !bad_variable_name(name@) && !reserved && last_named(local.variables@, name@) < 0 && last_named(contract_variables@, name@) >= 0
            ==> r == Ok::<VariableSource, EvalError>(VariableSource::Contract(last_named(contract_variables@, name@) as usize)),
        !bad_variable_name(name@) && !reserved && last_named(local.variables@, name@) < 0 && last_named(contract_variables@, name@) < 0
            && last_named(local.callable_contracts@, name@) >= 0 ==> r == Ok::<VariableSource, EvalError>(
            VariableSource::CallableContract(last_named(local.callable_contracts@, name@) as usize),
        ),
        !bad_variable_name(name@) && !reserved && last_named(local.variables@, name@) < 0 && last_named(contract_variables@, name@) < 0
            && last_named(local.callable_contracts@, name@) < 0 ==> (r is Err && r->Err_0 is UndefinedVariable),
{
    if name.len() > 0 && ((48 <= name[0] && name[0] <= 57) || name[0] == 39) {
        return Err(EvalError::BadSymbolicRepresentation(slice_to_vec(name)));
    }
    if reserved {
        return Ok(VariableSource::Reserved);
    }
    if let Some(i) = find_last(&local.variables, name) {
        return Ok(VariableSource::Local(i));
    }
    if let Some(i) = find_last(contract_variables, name) {
        return Ok(VariableSource::Contract(i));
    }
    if let Some(i) = find_last(&local.callable_contracts, name) {
        return Ok(VariableSource::CallableContract(i));
    }
    Err(EvalError::UndefinedVariable(slice_to_vec(name)))
}

/// What evaluating an expression asks for.
#[derive(Debug, PartialEq, Eq)]
pub enum EvalStep {
    /// The expression's own value.
    Value,
    /// The value of the variable of this name.
    Lookup(Vec<u8>),
    /// Applying the function of this name to the list's other items.
    Apply(Vec<u8>),
}

/// The first step of evaluating `e`: a literal is its value, an atom a
/// variable, and a list applies the function its first item names.
pub fn eval_step(e: &SymbolicExpression) -> (r: Result<EvalStep, EvalError>)
    ensures
        (e.expr is AtomValue || e.expr is LiteralValue) ==> r == Ok::<EvalStep, EvalError>(EvalStep::Value),
        e.expr is Atom ==> (r is Ok && r->Ok_0 is Lookup && r->Ok_0->Lookup_0@ == e.expr->Atom_0@),
        e.expr matches SymbolicExpressionType::List(ch) && ch@.len() == 0 ==> r == Err::<EvalStep, EvalError>(EvalError::NonFunctionApplication),
        e.expr matches SymbolicExpressionType::List(ch) && ch@.len() > 0 && !(ch@[0].expr is Atom) ==> r == Err::<EvalStep, EvalError>(
            EvalError::BadFunctionName,
        ),
        e.expr is List && e.expr->List_0@.len() > 0 && e.expr->List_0@[0].expr is Atom ==> (r is Ok && r->Ok_0 is Apply
            && r->Ok_0->Apply_0@ == e.expr->List_0@[0].expr->Atom_0@),
        (e.expr is TraitReference || e.expr is Field) ==> r == Err::<EvalStep, EvalError>(EvalError::NotEvaluable),
{
    match &e.expr {
        SymbolicExpressionType::AtomValue(_) | SymbolicExpressionType::LiteralValue(_) => Ok(EvalStep::Value),
        SymbolicExpressionType::Atom(n) => Ok(EvalStep::Lookup(slice_to_vec(n.as_bytes()))),
        SymbolicExpressionType::List(ch) => {
            if ch.len() == 0 {
                return Err(EvalError::NonFunctionApplication);
            }
            match &ch[0].expr {
                SymbolicExpressionType::Atom(f) => Ok(EvalStep::Apply(slice_to_vec(f.as_bytes()))),
                _ => Err(EvalError::BadFunctionName),
            }
        },
        SymbolicExpressionType::TraitReference(_) | SymbolicExpressionType::Field(_) => Err(EvalError::NotEvaluable),
    }
}

/// Ends a call of `id`: pops its frame, and gives a runtime failure the
/// stack `trace` unless it already carries one. When `id` is not the
/// innermost call, that mismatch is the result.
pub fn finish_call(result: Result<Value, EvalError>, stack: &mut CallStack, id: &[u8], trace: Vec<Vec<u8>>) -> (r: Result<Value, EvalError>)
    ensures
        old(stack).view().len() > 0 && old(stack).view().last().0 == id@ ==> final(stack).view() == old(stack).view().drop_last() && match result {
            Err(EvalError::Runtime(k, None)) => r matches Err(EvalError::Runtime(k2, Some(t))) && k2 == k && t@ == trace@,
            _ => r == result,
        },
        !(old(stack).view().len() > 0 && old(stack).view().last().0 == id@) ==> r == Err::<Value, EvalError>(EvalError::BadFunctionName)
            && final(stack).view() == old(stack).view(),
{
    let result = match result {
        Err(EvalError::Runtime(k, None)) => Err(EvalError::Runtime(k, Some(trace))),
        other => other,
    };
    match stack.exit(id) {
        Ok(()) => result,
        Err(_) => Err(EvalError::BadFunctionName),
    }
}

/// What a top-level form defines.
pub enum DefineResult {
    Variable(ClarityName, Value),
    Function(ClarityName),
    PersistedVariable(ClarityName, TypeSignature, Value),
    DataMap(ClarityName, TypeSignature, TypeSignature),
    FungibleToken(ClarityName, Option<u128>),
    NonFungibleAsset(ClarityName, TypeSignature),
    Trait(ClarityName),
    UseTrait(ClarityName, TraitIdentifier),
    ImplTrait(TraitIdentifier),
    NoDefine,
}

/// The names a contract binds. Constants, functions and stored names
/// (variables, maps, tokens) never share a name.
pub struct ContractContext {
    pub variables: Vec<(ClarityName, Value)>,
    pub functions: Vec<ClarityName>,
    pub persisted_names: Vec<ClarityName>,
    pub defined_traits: Vec<ClarityName>,
    pub implemented_traits: Vec<TraitIdentifier>,
}

pub open spec fn in_names(ns: Seq<ClarityName>, n: Seq<u8>) -> bool {
    exists|i: int| 0 <= i < ns.len() && (#[trigger] ns[i])@ == n
}

pub open spec fn in_vars(vs: Seq<(ClarityName, Value)>, n: Seq<u8>) -> bool {
    exists|i: int| 0 <= i < vs.len() && (#[trigger] vs[i]).0@ == n
}

/// Whether `n` is bound in the contract.
pub open spec fn bound(c: ContractContext, n: Seq<u8>) -> bool {
    in_vars(c.variables@, n) || in_names(c.functions@, n) || in_names(c.persisted_names@, n)
}

/// The names of variables, functions and stored names are pairwise disjoint.
pub open spec fn names_disjoint(c: ContractContext) -> bool {
    &&& forall|n: Seq<u8>| !(in_vars(c.variables@, n) && in_names(c.functions@, n))
    &&& forall|n: Seq<u8>| !(in_vars(c.variables@, n) && in_names(c.persisted_names@, n))
    &&& forall|n: Seq<u8>| !(in_names(c.functions@, n) && in_names(c.persisted_names@, n))
}

fn names_contain(ns: &Vec<ClarityName>, n: &[u8]) -> (r: bool)
    ensures
        r == in_names(ns@, n@),
{
    let mut i: usize = 0;
    while i < ns.len()
        invariant
            i <= ns@.len(),
            forall|j: int| 0 <= j < i ==> (#[trigger] ns@[j])@ != n@,
        decreases ns@.len() - i,
    {
        if compare_bytes(ns[i].as_bytes(), n) == 0 {
            return true;
        }
        i = i + 1;
    }
    false
}

fn is_bound(c: &ContractContext, n: &[u8]) -> (r: bool)
    ensures
        r == bound(*c, n@),
{
    let v = match find_last(&c.variables, n) {
        Some(_) => true,
        None => false,
    };
    proof {
        if !v {
            assert forall|i: int| 0 <= i < c.variables@.len() implies (#[trigger] c.variables@[i]).0@ != n@ by {
                lemma_last_named_none(c.variables@, n@, i);
            }
        } else {
            lemma_last_named_some(c.variables@, n@);
        }
    }
    v || names_contain(&c.functions, n) || names_contain(&c.persisted_names, n)
}

proof fn lemma_last_named_none<T>(vs: Seq<(ClarityName, T)>, n: Seq<u8>, i: int)
    requires
        last_named(vs, n) == -1,
        0 <= i < vs.len(),
    ensures
        vs[i].0@ != n,
    decreases vs.len(),
{
    if i < vs.len() - 1 {
        assert(vs.drop_last()[i] == vs[i]);
        lemma_last_named_none(vs.drop_last(), n, i);
    }
}

proof fn lemma_last_named_some<T>(vs: Seq<(ClarityName, T)>, n: Seq<u8>)
    requires
        last_named(vs, n) >= 0,
    ensures
        0 <= last_named(vs, n) < vs.len(),
        vs[last_named(vs, n)].0@ == n,
    decreases vs.len(),
{
    if vs.last().0@ != n {
        lemma_last_named_some(vs.drop_last(), n);
        assert(vs.drop_last()[last_named(vs, n)] == vs[last_named(vs, n)]);
    }
}

/// The name a definition binds among variables, functions and stored names.
pub open spec fn bound_name(d: DefineResult) -> Option<Seq<u8>> {
    match d {
        DefineResult::Variable(n, _) => Some(n@),
        DefineResult::Function(n) => Some(n@),
        DefineResult::PersistedVariable(n, _, _) => Some(n@),
        DefineResult::DataMap(n, _, _) => Some(n@),
        DefineResult::FungibleToken(n, _) => Some(n@),
        DefineResult::NonFungibleAsset(n, _) => Some(n@),
        _ => None,
    }
}

/// Binds what a top-level form defines: a constant among the variables, a
/// function among the functions, a stored variable, map or token among the
/// stored names, a trait among the defined traits, an `impl-trait` among
/// the implemented ones. A name bound already is refused, so the three
/// kinds of names stay disjoint.
pub fn bind_definition(c: &mut ContractContext, d: DefineResult) -> (r: Result<(), EvalError>)
    requires
        names_disjoint(*old(c)),
    ensures
        names_disjoint(*final(c)),
        bound_name(d) is Some && bound(*old(c), bound_name(d)->Some_0) ==> (r is Err && r->Err_0 is NameAlreadyUsed),
        bound_name(d) is Some && !bound(*old(c), bound_name(d)->Some_0) ==> r is Ok && bound(*final(c), bound_name(d)->Some_0),
        bound_name(d) is None ==> r is Ok,
        r is Ok ==> forall|n: Seq<u8>| bound(*old(c), n) ==> bound(*final(c), n),
        d is Variable && r is Ok ==> in_vars(final(c).variables@, bound_name(d)->Some_0),
        d is Function && r is Ok ==> in_names(final(c).functions@, bound_name(d)->Some_0),
        (d is PersistedVariable || d is DataMap || d is FungibleToken || d is NonFungibleAsset) && r is Ok ==> in_names(
            final(c).persisted_names@,
            bound_name(d)->Some_0,
        ),
{
    let ghost old_c = *c;
    match d {
        DefineResult::Variable(n, v) => {
            if is_bound(c, n.as_bytes()) {
                return Err(EvalError::NameAlreadyUsed(slice_to_vec(n.as_bytes())));
            }
            let ghost nv = n@;
            c.variables.push((n, v));
            proof { lemma_push_var(old_c, *c, nv); }
            Ok(())
        },
        DefineResult::Function(n) => {
            if is_bound(c, n.as_bytes()) {
                return Err(EvalError::NameAlreadyUsed(slice_to_vec(n.as_bytes())));
            }
            let ghost nv = n@;
            c.functions.push(n);
            proof { lemma_push_name(old_c.functions@, c.functions@, nv); }
            Ok(())
        },
        DefineResult::PersistedVariable(n, _, _) | DefineResult::DataMap(n, _, _) | DefineResult::FungibleToken(n, _)
        | DefineResult::NonFungibleAsset(n, _) => {
            if is_bound(c, n.as_bytes()) {
                return Err(EvalError::NameAlreadyUsed(slice_to_vec(n.as_bytes())));
            }
            let ghost nv = n@;
            c.persisted_names.push(n);
            proof { lemma_push_name(old_c.persisted_names@, c.persisted_names@, nv); }
            Ok(())
        },
        DefineResult::Trait(n) => {
            c.defined_traits.push(n);
            Ok(())
        },
        DefineResult::ImplTrait(t) => {
            c.implemented_traits.push(t);
            Ok(())
        },
        DefineResult::UseTrait(_, _) | DefineResult::NoDefine => Ok(()),
    }
}

proof fn lemma_push_name(before: Seq<ClarityName>, after: Seq<ClarityName>, n: Seq<u8>)
    requires
        after.len() == before.len() + 1,
        forall|i: int| 0 <= i < before.len() ==> after[i] == before[i],
        after[before.len() as int]@ == n,
    ensures
        forall|m: Seq<u8>| #[trigger] in_names(after, m) <==> in_names(before, m) || m == n,
{
    assert forall|m: Seq<u8>| #[trigger] in_names(after, m) <==> in_names(before, m) || m == n by {
        if in_names(before, m) {
            let i = choose|i: int| 0 <= i < before.len() && (#[trigger] before[i])@ == m;
            assert(after[i]@ == m);
        }
        if m == n {
            assert(after[before.len() as int]@ == m);
        }
        if in_names(after, m) && m != n {
            let i = choose|i: int| 0 <= i < after.len() && (#[trigger] after[i])@ == m;
            assert(i < before.len());
            assert(before[i]@ == m);
        }
    }
}

proof fn lemma_push_var(before: ContractContext, after: ContractContext, n: Seq<u8>)
    requires
        after.variables@.len() == before.variables@.len() + 1,
        forall|i: int| 0 <= i < before.variables@.len() ==> after.variables@[i] == before.variables@[i],
        after.variables@[before.variables@.len() as int].0@ == n,
        after.functions == before.functions,
        after.persisted_names == before.persisted_names,
    ensures
        forall|m: Seq<u8>| #[trigger] in_vars(after.variables@, m) <==> in_vars(before.variables@, m) || m == n,
{
    let bv = before.variables@;
    let av = after.variables@;
    assert forall|m: Seq<u8>| #[trigger] in_vars(av, m) <==> in_vars(bv, m) || m == n by {
        if in_vars(bv, m) {
            let i = choose|i: int| 0 <= i < bv.len() && (#[trigger] bv[i]).0@ == m;
            assert(av[i].0@ == m);
        }
        if m == n {
            assert(av[bv.len() as int].0@ == m);
        }
        if in_vars(av, m) && m != n {
            let i = choose|i: int| 0 <= i < av.len() && (#[trigger] av[i]).0@ == m;
            assert(i < bv.len());
            assert(bv[i].0@ == m);
        }
    }
}

} // verus!
