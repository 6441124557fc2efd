//! Orders top-level forms so that every definition comes before the forms
//! that refer to it.
use vstd::prelude::*;
use crate::names::{slice_to_vec, ClarityName};
use crate::parser::{PreSymbolicExpression, PreSymbolicExpressionType};
use crate::types::compare_bytes;

verus! {

broadcast use vstd::seq::axiom_seq_index_decreases, vstd::std_specs::vec::axiom_vec_index_decreases;

/// Whether `d` appears in `order` before position `a`.
pub open spec fn placed_before(order: Seq<usize>, a: int, d: usize) -> bool {
    exists|b: int| 0 <= b < a && order[b] == d
}

/// Whether every node in `order` comes after all the nodes it depends on.
pub open spec fn is_topological(order: Seq<usize>, deps: Seq<Seq<usize>>) -> bool {
    forall|a: int, j: int|
        0 <= a < order.len() && 0 <= j < deps[order[a] as int].len() ==> #[trigger] placed_before(
            order,
            a,
            deps[order[a] as int][j],
        )
}

/// Whether `order` lists each of `0..n` exactly once.
pub open spec fn is_permutation(order: Seq<usize>, n: nat) -> bool {
    &&& order.len() == n
    &&& forall|a: int| 0 <= a < order.len() ==> (#[trigger] order[a]) < n
    &&& forall|a: int, b: int| 0 <= a < b < order.len() ==> (#[trigger] order[a]) != (#[trigger] order[b])
}

/// Whether `deps` only names nodes `0..deps.len()`.
pub open spec fn deps_in_range(deps: Seq<Seq<usize>>) -> bool {
    forall|i: int, j: int| 0 <= i < deps.len() && 0 <= j < deps[i].len() ==> (#[trigger] deps[i][j]) < deps.len()
}

/// Whether node `q` depends on a node that `placed` does not hold.
pub open spec fn stuck(deps: Seq<Seq<usize>>, placed: Seq<bool>, q: int) -> bool {
    exists|m: int| 0 <= m < deps[q].len() && !placed[#[trigger] deps[q][m] as int]
}

proof fn lemma_distinct_bounded(s: Seq<usize>, n: nat)
    requires
        forall|a: int| 0 <= a < s.len() ==> (#[trigger] s[a]) < n,
        forall|a: int, b: int| 0 <= a < b < s.len() ==> (#[trigger] s[a]) != (#[trigger] s[b]),
    ensures
        s.len() <= n,
{
    let t = s.map_values(|x: usize| x as int);
    assert(t.no_duplicates()) by {
        assert forall|a: int, b: int| 0 <= a < t.len() && 0 <= b < t.len() && a != b implies t[a] != t[b] by {
            if a < b {
                assert(s[a] != s[b]);
            } else {
                assert(s[b] != s[a]);
            }
        }
    }
    t.unique_seq_to_set();
    vstd::set_lib::lemma_int_range(0, n as int);
    assert(t.to_set().subset_of(vstd::set_lib::set_int_range(0, n as int))) by {
        assert forall|x: int| t.to_set().contains(x) implies vstd::set_lib::set_int_range(0, n as int).contains(x) by {
            let a = choose|a: int| 0 <= a < t.len() && t[a] == x;
            assert(s[a] < n);
        }
    }
    vstd::set_lib::lemma_len_subset(t.to_set(), vstd::set_lib::set_int_range(0, n as int));
}

/// What the sorter keeps true: `order` holds the nodes placed so far, each
/// after its dependencies, and `position` says where each placed node is.
pub open spec fn sorter_inv(g: Seq<Seq<usize>>, placed: Seq<bool>, position: Seq<usize>, order: Seq<usize>) -> bool {
    let n = g.len();
    &&& placed.len() == n
    &&& position.len() == n
    &&& order.len() <= n
    &&& forall|a: int| 0 <= a < order.len() ==> (#[trigger] order[a]) < n && placed[order[a] as int] && position[order[a] as int] == a
    &&& forall|k: int| 0 <= k < n && #[trigger] placed[k] ==> position[k] < order.len() && order[position[k] as int] == k
    &&& forall|a: int, b: int| 0 <= a < b < order.len() ==> (#[trigger] order[a]) != (#[trigger] order[b])
    &&& is_topological(order, g)
}

/// Places node `k`, whose dependencies are all placed, at the end of `order`.
fn place(
    k: usize,
    placed: &mut Vec<bool>,
    position: &mut Vec<usize>,
    order: &mut Vec<usize>,
    Ghost(g): Ghost<Seq<Seq<usize>>>,
)
    requires
        sorter_inv(g, old(placed)@, old(position)@, old(order)@),
        deps_in_range(g),
        k < g.len(),
        !old(placed)@[k as int],
        forall|m: int| 0 <= m < g[k as int].len() ==> #[trigger] old(placed)@[g[k as int][m] as int],
    ensures
        sorter_inv(g, final(placed)@, final(position)@, final(order)@),
        final(order)@.len() == old(order)@.len() + 1,
        forall|q: int| 0 <= q < g.len() && #[trigger] old(placed)@[q] ==> final(placed)@[q],
{
    let n = placed.len();
    let ghost before = order@;
    let ghost pos_before = position@;
    let ghost placed_was = placed@;
    proof {
        assert forall|a: int| 0 <= a < before.push(k).len() implies (#[trigger] before.push(k)[a]) < n by {
            if a < before.len() {
                assert(before.push(k)[a] == before[a]);
            }
        }
        assert forall|a: int, b: int| 0 <= a < b < before.push(k).len() implies (#[trigger] before.push(k)[a]) != (#[trigger] before.push(k)[b]) by {
            assert(before.push(k)[a] == before[a]);
            if b < before.len() {
                assert(before.push(k)[b] == before[b]);
            }
        }
        lemma_distinct_bounded(before.push(k), n as nat);
    }
    let a = order.len();
    order.push(k);
    placed.set(k, true);
    position.set(k, a);
    proof {
        assert forall|x: int, y: int| 0 <= x < order@.len() && 0 <= y < g[order@[x] as int].len()
            implies #[trigger] placed_before(order@, x, g[order@[x] as int][y]) by {
            if x < a {
                assert(order@[x] == before[x]);
                assert(placed_before(before, x, g[before[x] as int][y]));
                let b = choose|b: int| 0 <= b < x && before[b] == g[before[x] as int][y];
                assert(order@[b] == before[b]);
            } else {
                let dd = g[k as int][y];
                assert(placed_was[dd as int]);
                let b = pos_before[dd as int] as int;
                assert(before[b] == dd);
                assert(order@[b] == before[b]);
            }
        }
        assert forall|x: int| 0 <= x < order@.len() implies (#[trigger] order@[x]) < n && placed@[order@[x] as int]
            && position@[order@[x] as int] == x by {
            if x < a {
                assert(order@[x] == before[x]);
            }
        }
        assert forall|x: int, y: int| 0 <= x < y < order@.len() implies (#[trigger] order@[x]) != (#[trigger] order@[y]) by {
            if y == a {
                assert(order@[x] == before[x]);
            } else {
                assert(order@[x] == before[x] && order@[y] == before[y]);
            }
        }
    }
}

/// Whether all of node `k`'s dependencies are placed.
fn ready(deps: &Vec<Vec<usize>>, k: usize, placed: &Vec<bool>, Ghost(g): Ghost<Seq<Seq<usize>>>) -> (r: bool)
    requires
        g == deps@.map_values(|d: Vec<usize>| d@),
        deps_in_range(g),
        k < g.len(),
        placed@.len() == g.len(),
    ensures
        r ==> forall|m: int| 0 <= m < g[k as int].len() ==> #[trigger] placed@[g[k as int][m] as int],
        !r ==> stuck(g, placed@, k as int),
{
    let d = &deps[k];
    assert(d@ == g[k as int]);
    let mut j: usize = 0;
    while j < d.len()
        invariant
            d@ == g[k as int],
            deps_in_range(g),
            k < g.len(),
            placed@.len() == g.len(),
            j <= d@.len(),
            forall|m: int| 0 <= m < j ==> #[trigger] placed@[d@[m] as int],
        decreases d@.len() - j,
    {
        let dj = d[j];
        assert(dj == g[k as int][j as int]);
        if !placed[dj] {
            return false;
        }
        j = j + 1;
    }
    true
}

/// One pass over all nodes, placing each whose dependencies are placed.
/// Returns whether it placed any.
fn place_ready(
    deps: &Vec<Vec<usize>>,
    placed: &mut Vec<bool>,
    position: &mut Vec<usize>,
    order: &mut Vec<usize>,
    Ghost(g): Ghost<Seq<Seq<usize>>>,
) -> (progress: bool)
    requires
        g == deps@.map_values(|d: Vec<usize>| d@),
        deps_in_range(g),
        sorter_inv(g, old(placed)@, old(position)@, old(order)@),
    ensures
        sorter_inv(g, final(placed)@, final(position)@, final(order)@),
        final(order)@.len() >= old(order)@.len(),
        progress ==> final(order)@.len() > old(order)@.len(),
        !progress ==> forall|q: int| 0 <= q < g.len() ==> #[trigger] final(placed)@[q] || stuck(g, final(placed)@, q),
{
    let n = deps.len();
    let mut progress = false;
    let ghost start_len = order@.len();
    let mut k: usize = 0;
    while k < n
        invariant
            n == g.len(),
            g == deps@.map_values(|d: Vec<usize>| d@),
            deps_in_range(g),
            sorter_inv(g, placed@, position@, order@),
            k <= n,
            order@.len() >= start_len,
            progress ==> order@.len() > start_len,
            !progress ==> forall|q: int| 0 <= q < k ==> #[trigger] placed@[q] || stuck(g, placed@, q),
        decreases n - k,
    {
        if !placed[k] {
            if ready(deps, k, placed, Ghost(g)) {
                place(k, placed, position, order, Ghost(g));
                progress = true;
            }
        }
        k = k + 1;
    }
    progress
}

/// Sorts nodes `0..deps.len()` so that each comes after the nodes it
/// depends on. When that is not possible, returns the nodes left over: each
/// depends on another of them, so they hold a cycle.
pub fn sort_definitions(deps: &Vec<Vec<usize>>) -> (r: Result<Vec<usize>, Vec<usize>>)
    requires
        deps_in_range(deps@.map_values(|d: Vec<usize>| d@)),
    ensures
        r matches Ok(order) ==> is_permutation(order@, deps@.len()) && is_topological(
            order@,
            deps@.map_values(|d: Vec<usize>| d@),
        ),
        r matches Err(left) ==> left@.len() > 0 && forall|a: int|
            0 <= a < left@.len() ==> (#[trigger] left@[a]) < deps@.len() && exists|j: int, b: int|
                0 <= j < deps@[left@[a] as int]@.len() && 0 <= b < left@.len() && left@[b]
                    == deps@[left@[a] as int]@[j],
{
    let ghost g = deps@.map_values(|d: Vec<usize>| d@);
    let n = deps.len();
    let mut placed: Vec<bool> = Vec::new();
    let mut position: Vec<usize> = Vec::new();
    let mut i: usize = 0;
    while i < n
        invariant
            i <= n == deps@.len(),
            placed@.len() == i,
            position@.len() == i,
            forall|k: int| 0 <= k < i ==> !(#[trigger] placed@[k]),
        decreases n - i,
    {
        placed.push(false);
        position.push(0);
        i = i + 1;
    }
    let mut order: Vec<usize> = Vec::new();
    let mut progress = true;
    while progress && order.len() < n
        invariant
            n == g.len() == deps@.len(),
            g == deps@.map_values(|d: Vec<usize>| d@),
            deps_in_range(g),
            sorter_inv(g, placed@, position@, order@),
            !progress ==> forall|q: int| 0 <= q < n ==> #[trigger] placed@[q] || stuck(g, placed@, q),
        decreases n - order@.len(), if progress { 1int } else { 0int },
    {
        progress = place_ready(deps, &mut placed, &mut position, &mut order, Ghost(g));
    }
    if order.len() == n {
        return Ok(order);
    }
    proof {
        if forall|q: int| 0 <= q < n ==> #[trigger] placed@[q] {
            let ps = Seq::new(n as nat, |q: int| position@[q]);
            assert forall|a: int| 0 <= a < ps.len() implies (#[trigger] ps[a]) < order@.len() by {
                assert(placed@[a]);
            }
            assert forall|a: int, b: int| 0 <= a < b < ps.len() implies (#[trigger] ps[a]) != (#[trigger] ps[b]) by {
                assert(placed@[a] && placed@[b]);
            }
            lemma_distinct_bounded(ps, order@.len());
        }
    }
    collect_left(deps, &placed, Ghost(g))
}

proof fn lemma_left_stuck(deps: Seq<Vec<usize>>, g: Seq<Seq<usize>>, placed: Seq<bool>, left: Seq<usize>)
    requires
        g == deps.map_values(|d: Vec<usize>| d@),
        deps_in_range(g),
        placed.len() == g.len(),
        exists|q: int| 0 <= q < g.len() && !placed[q],
        forall|q: int| 0 <= q < g.len() ==> #[trigger] placed[q] || stuck(g, placed, q),
        forall|a: int| 0 <= a < left.len() ==> (#[trigger] left[a]) < g.len() && !placed[left[a] as int],
        forall|q: int| 0 <= q < g.len() && !(#[trigger] placed[q]) ==> exists|a: int| 0 <= a < left.len() && left[a] == q,
    ensures
        left.len() > 0,
        forall|a: int|
            0 <= a < left.len() ==> (#[trigger] left[a]) < deps.len() && exists|j: int, b: int|
                0 <= j < deps[left[a] as int]@.len() && 0 <= b < left.len() && left[b] == deps[left[a] as int]@[j],
{
    let q0 = choose|q: int| 0 <= q < g.len() && !placed[q];
    assert(exists|a: int| 0 <= a < left.len() && left[a] == q0);
    assert forall|a: int| 0 <= a < left.len() implies (#[trigger] left[a]) < deps.len() && exists|j: int, b: int|
        0 <= j < deps[left[a] as int]@.len() && 0 <= b < left.len() && left[b] == deps[left[a] as int]@[j] by {
        let q = left[a] as int;
        assert(!placed[q]);
        assert(stuck(g, placed, q));
        let m = choose|m: int| 0 <= m < g[q].len() && !placed[#[trigger] g[q][m] as int];
        let d = g[q][m] as int;
        assert(d < g.len());
        let b = choose|b: int| 0 <= b < left.len() && left[b] == d;
        assert(deps[q]@ == g[q]);
    }
}

/// The nodes not placed, when each of them waits on another unplaced one.
fn collect_left(deps: &Vec<Vec<usize>>, placed: &Vec<bool>, Ghost(g): Ghost<Seq<Seq<usize>>>) -> (r: Result<Vec<usize>, Vec<usize>>)
    requires
        g == deps@.map_values(|d: Vec<usize>| d@),
        deps_in_range(g),
        placed@.len() == g.len(),
        exists|q: int| 0 <= q < g.len() && !placed@[q],
        forall|q: int| 0 <= q < g.len() ==> #[trigger] placed@[q] || stuck(g, placed@, q),
    ensures
        r matches Err(left) && left@.len() > 0 && forall|a: int|
            0 <= a < left@.len() ==> (#[trigger] left@[a]) < deps@.len() && exists|j: int, b: int|
                0 <= j < deps@[left@[a] as int]@.len() && 0 <= b < left@.len() && left@[b]
                    == deps@[left@[a] as int]@[j],
{
    let n = deps.len();
    let mut left: Vec<usize> = Vec::new();
    let mut k: usize = 0;
    while k < n
        invariant
            n == deps@.len() == g.len(),
            placed@.len() == n,
            k <= n,
            forall|a: int| 0 <= a < left@.len() ==> (#[trigger] left@[a]) < k && !placed@[left@[a] as int],
            forall|q: int| 0 <= q < k && !(#[trigger] placed@[q]) ==> exists|a: int| 0 <= a < left@.len() && left@[a] == q,
        decreases n - k,
    {
        let ghost lb = left@;
        if !placed[k] {
            left.push(k);
        }
        proof {
            assert forall|q: int| 0 <= q < k + 1 && !(#[trigger] placed@[q]) implies exists|a: int| 0 <= a < left@.len() && left@[a] == q by {
                if q < k {
                    let a = choose|a: int| 0 <= a < lb.len() && lb[a] == q;
                    assert(left@[a] == lb[a]);
                } else {
                    assert(left@[left@.len() - 1] == k);
                }
            }
            assert forall|a: int| 0 <= a < left@.len() implies (#[trigger] left@[a]) < k + 1 && !placed@[left@[a] as int] by {
                if a < lb.len() {
                    assert(left@[a] == lb[a]);
                }
            }
        }
        k = k + 1;
    }
    proof { lemma_left_stuck(deps@, g, placed@, left@); }
    Err(left)
}

/// The atoms in `e` and everything inside it, in document order.
pub open spec fn atoms_of(e: PreSymbolicExpression) -> Seq<Seq<u8>>
    decreases e, 1int,
{
    match e.pre_expr {
        PreSymbolicExpressionType::Atom(n) => seq![n@],
        PreSymbolicExpressionType::List(ch) => atoms_range(ch@, 0, ch@.len() as int),
        PreSymbolicExpressionType::Tuple(ch) => atoms_range(ch@, 0, ch@.len() as int),
        _ => Seq::empty(),
    }
}

/// The atoms in `es[from..k]` and everything inside them.
pub open spec fn atoms_range(es: Seq<PreSymbolicExpression>, from: int, k: int) -> Seq<Seq<u8>>
    decreases es, 0int, k,
{
    if k <= from || k > es.len() || from < 0 {
        Seq::empty()
    } else {
        atoms_range(es, from, k - 1) + atoms_of(es[k - 1])
    }
}

pub open spec fn define_prefix() -> Seq<u8> {
    seq![100u8, 101, 102, 105, 110, 101, 45]
}

/// Whether `e` is an atom whose name starts with `define-`.
pub open spec fn is_define_keyword(e: PreSymbolicExpression) -> bool {
    e.pre_expr matches PreSymbolicExpressionType::Atom(n) && n@.len() >= 7 && n@.subrange(0, 7) == define_prefix()
}

/// The name a top-level form defines: `(define-... name ...)` or
/// `(define-... (name args...) ...)`.
pub open spec fn defined_name(e: PreSymbolicExpression) -> Option<Seq<u8>> {
    match e.pre_expr {
        PreSymbolicExpressionType::List(ch) => if ch@.len() >= 2 && is_define_keyword(ch@[0]) {
            match ch@[1].pre_expr {
                PreSymbolicExpressionType::Atom(n) => Some(n@),
                PreSymbolicExpressionType::List(sig) => if sig@.len() >= 1 && sig@[0].pre_expr is Atom {
                    Some(sig@[0].pre_expr->Atom_0@)
                } else {
                    None
                },
                _ => None,
            }
        } else {
            None
        },
        _ => None,
    }
}

/// The atoms a top-level form refers to: all of them, but for the name a
/// definition introduces.
pub open spec fn referenced_atoms(e: PreSymbolicExpression) -> Seq<Seq<u8>> {
    match e.pre_expr {
        PreSymbolicExpressionType::List(ch) => if defined_name(e) is Some {
            match ch@[1].pre_expr {
                PreSymbolicExpressionType::List(sig) => atoms_range(ch@, 0, 1) + atoms_range(sig@, 1, sig@.len() as int)
                    + atoms_range(ch@, 2, ch@.len() as int),
                _ => atoms_range(ch@, 0, 1) + atoms_range(ch@, 2, ch@.len() as int),
            }
        } else {
            atoms_of(e)
        },
        _ => atoms_of(e),
    }
}

/// Whether form `i` of `exprs` refers to the name that form `j` defines.
pub open spec fn depends_on(exprs: Seq<PreSymbolicExpression>, i: int, j: int) -> bool {
    defined_name(exprs[j]) matches Some(n) && referenced_atoms(exprs[i]).contains(n)
}

proof fn lemma_atoms_range_split(es: Seq<PreSymbolicExpression>, from: int, k: int)
    requires
        0 <= from < k <= es.len(),
    ensures
        atoms_range(es, from, k) == atoms_range(es, from, k - 1) + atoms_of(es[k - 1]),
{
}

/// Appends the atoms of `e` to `out`.
fn collect_atoms(e: &PreSymbolicExpression, out: &mut Vec<Vec<u8>>)
    ensures
        vec_bytes(final(out)@) == vec_bytes(old(out)@) + atoms_of(*e),
    decreases *e, 1int,
{
    match &e.pre_expr {
        PreSymbolicExpressionType::Atom(n) => {
            let ghost o = vec_bytes(out@);
            out.push(slice_to_vec(n.as_bytes()));
            assert(vec_bytes(out@) =~= o + seq![n@]);
        },
        PreSymbolicExpressionType::List(ch) => {
            collect_range(ch, 0, ch.len(), out);
        },
        PreSymbolicExpressionType::Tuple(ch) => {
            collect_range(ch, 0, ch.len(), out);
        },
        _ => {
            assert(vec_bytes(out@) =~= vec_bytes(out@) + Seq::<Seq<u8>>::empty());
        },
    }
}

/// Appends the atoms of `es[from..to]` to `out`.
fn collect_range(es: &Vec<PreSymbolicExpression>, from: usize, to: usize, out: &mut Vec<Vec<u8>>)
    requires
        from <= to <= es@.len(),
    ensures
        vec_bytes(final(out)@) == vec_bytes(old(out)@) + atoms_range(es@, from as int, to as int),
    decreases *es, 0int, 0int,
{
    let ghost o = vec_bytes(out@);
    let mut k: usize = from;
    assert(atoms_range(es@, from as int, from as int) =~= Seq::<Seq<u8>>::empty());
    assert(o + Seq::<Seq<u8>>::empty() =~= o);
    while k < to
        invariant
            from <= k <= to <= es@.len(),
            vec_bytes(out@) == o + atoms_range(es@, from as int, k as int),
        decreases to - k,
    {
        assert(decreases_to!(*es => es@[k as int]));
        collect_atoms(&es[k], out);
        proof {
            lemma_atoms_range_split(es@, from as int, k + 1);
            assert(o + atoms_range(es@, from as int, k + 1) =~= (o + atoms_range(es@, from as int, k as int)) + atoms_of(es@[k as int]));
        }
        k = k + 1;
    }
}

pub open spec fn vec_bytes(v: Seq<Vec<u8>>) -> Seq<Seq<u8>> {
    Seq::new(v.len(), |i: int| v[i]@)
}

fn starts_with_define(n: &ClarityName) -> (r: bool)
    ensures
        r <==> n@.len() >= 7 && n@.subrange(0, 7) == define_prefix(),
{
    let b = n.as_bytes();
    if b.len() < 7 {
        return false;
    }
    let r = b[0] == 100 && b[1] == 101 && b[2] == 102 && b[3] == 105 && b[4] == 110 && b[5] == 101 && b[6] == 45;
    proof {
        if r {
            assert(b@.subrange(0, 7) =~= define_prefix());
        } else if b@.subrange(0, 7) == define_prefix() {
            assert(b@.subrange(0, 7)[0] == 100u8);
            assert(b@.subrange(0, 7)[1] == 101u8);
            assert(b@.subrange(0, 7)[2] == 102u8);
            assert(b@.subrange(0, 7)[3] == 105u8);
            assert(b@.subrange(0, 7)[4] == 110u8);
            assert(b@.subrange(0, 7)[5] == 101u8);
            assert(b@.subrange(0, 7)[6] == 45u8);
        }
    }
    r
}

/// The name a top-level form defines, if it is a definition.
pub fn definition_name(e: &PreSymbolicExpression) -> (r: Option<Vec<u8>>)
    ensures
        r matches Some(n) ==> defined_name(*e) == Some(n@),
        r is None ==> defined_name(*e) is None,
{
    match &e.pre_expr {
        PreSymbolicExpressionType::List(ch) => {
            if ch.len() < 2 {
                return None;
            }
            let is_define = match &ch[0].pre_expr {
                PreSymbolicExpressionType::Atom(k) => starts_with_define(k),
                _ => false,
            };
            if !is_define {
                return None;
            }
            match &ch[1].pre_expr {
                PreSymbolicExpressionType::Atom(n) => Some(slice_to_vec(n.as_bytes())),
                PreSymbolicExpressionType::List(sig) => {
                    if sig.len() >= 1 {
                        match &sig[0].pre_expr {
                            PreSymbolicExpressionType::Atom(n) => Some(slice_to_vec(n.as_bytes())),
                            _ => None,
                        }
                    } else {
                        None
                    }
                },
                _ => None,
            }
        },
        _ => None,
    }
}

/// The atoms that a top-level form refers to.
pub fn references(e: &PreSymbolicExpression) -> (r: Vec<Vec<u8>>)
    ensures
        vec_bytes(r@) == referenced_atoms(*e),
{
    let mut out: Vec<Vec<u8>> = Vec::new();
    let ghost empty = vec_bytes(out@);
    assert(empty =~= Seq::<Seq<u8>>::empty());
    let name = definition_name(e);
    match &e.pre_expr {
        PreSymbolicExpressionType::List(ch) => {
            if name.is_some() {
                collect_range(ch, 0, 1, &mut out);
                match &ch[1].pre_expr {
                    PreSymbolicExpressionType::List(sig) => {
                        collect_range(sig, 1, sig.len(), &mut out);
                    },
                    _ => {},
                }
                collect_range(ch, 2, ch.len(), &mut out);
                proof {
                    match ch@[1].pre_expr {
                        PreSymbolicExpressionType::List(sig) => {
                            assert(vec_bytes(out@) =~= referenced_atoms(*e));
                        },
                        _ => {
                            assert(vec_bytes(out@) =~= referenced_atoms(*e));
                        },
                    }
                }
            } else {
                collect_atoms(e, &mut out);
                assert(vec_bytes(out@) =~= referenced_atoms(*e));
            }
        },
        _ => {
            collect_atoms(e, &mut out);
            assert(vec_bytes(out@) =~= referenced_atoms(*e));
        },
    }
    out
}

/// For each top-level form, the forms whose defined name it refers to.
pub fn dependency_graph(exprs: &Vec<PreSymbolicExpression>) -> (r: Vec<Vec<usize>>)
    ensures
        r@.len() == exprs@.len(),
        deps_in_range(r@.map_values(|d: Vec<usize>| d@)),
        forall|i: int, m: int| 0 <= i < r@.len() && 0 <= m < r@[i]@.len() ==> depends_on(exprs@, i, #[trigger] r@[i]@[m] as int),
        forall|i: int, j: int| 0 <= i < r@.len() && 0 <= j < r@.len() && depends_on(exprs@, i, j) ==> r@[i]@.contains(j as usize),
{
    let n = exprs.len();
    let mut names: Vec<Option<Vec<u8>>> = Vec::new();
    let mut j: usize = 0;
    while j < n
        invariant
            j <= n == exprs@.len(),
            names@.len() == j,
            forall|q: int| 0 <= q < j ==> match #[trigger] names@[q] {
                Some(x) => defined_name(exprs@[q]) == Some(x@),
                None => defined_name(exprs@[q]) is None,
            },
        decreases n - j,
    {
        names.push(definition_name(&exprs[j]));
        j = j + 1;
    }
    let mut graph: Vec<Vec<usize>> = Vec::new();
    let mut i: usize = 0;
    while i < n
        invariant
            i <= n == exprs@.len(),
            names@.len() == n,
            forall|q: int| 0 <= q < n ==> match #[trigger] names@[q] {
                Some(x) => defined_name(exprs@[q]) == Some(x@),
                None => defined_name(exprs@[q]) is None,
            },
            graph@.len() == i,
            forall|a: int, m: int| 0 <= a < i && 0 <= m < graph@[a]@.len() ==> (#[trigger] graph@[a]@[m]) < n
                && depends_on(exprs@, a, graph@[a]@[m] as int),
            forall|a: int, b: int| 0 <= a < i && 0 <= b < n && depends_on(exprs@, a, b) ==> #[trigger] graph@[a]@.contains(b as usize),
        decreases n - i,
    {
        let refs = references(&exprs[i]);
        let mut row: Vec<usize> = Vec::new();
        let mut j: usize = 0;
        while j < n
            invariant
                j <= n == exprs@.len(),
                i < n,
                names@.len() == n,
                forall|q: int| 0 <= q < n ==> match #[trigger] names@[q] {
                    Some(x) => defined_name(exprs@[q]) == Some(x@),
                    None => defined_name(exprs@[q]) is None,
                },
                vec_bytes(refs@) == referenced_atoms(exprs@[i as int]),
                forall|m: int| 0 <= m < row@.len() ==> (#[trigger] row@[m]) < n && depends_on(exprs@, i as int, row@[m] as int),
                forall|b: int| 0 <= b < j && depends_on(exprs@, i as int, b) ==> #[trigger] row@.contains(b as usize),
            decreases n - j,
        {
            match &names[j] {
                Some(x) => {
                    let mut found = false;
                    let mut m: usize = 0;
                    while m < refs.len() && !found
                        invariant
                            m <= refs@.len(),
                            found ==> vec_bytes(refs@).contains(x@),
                            !found ==> forall|q: int| 0 <= q < m ==> vec_bytes(refs@)[q] != x@,
                        decreases refs@.len() - m, if found { 0int } else { 1int },
                    {
                        if compare_bytes(refs[m].as_slice(), x.as_slice()) == 0 {
                            assert(vec_bytes(refs@)[m as int] == x@);
                            found = true;
                        } else {
                            m = m + 1;
                        }
                    }
                    let ghost before = row@;
                    if found {
                        row.push(j);
                        proof {
                            assert forall|b: int| 0 <= b < j + 1 && depends_on(exprs@, i as int, b) implies #[trigger] row@.contains(b as usize) by {
                                if b < j {
                                    assert(before.contains(b as usize));
                                    let w = choose|w: int| 0 <= w < before.len() && before[w] == b as usize;
                                    assert(row@[w] == before[w]);
                                } else {
                                    assert(row@[row@.len() - 1] == j);
                                }
                            }
                            assert forall|q: int| 0 <= q < row@.len() implies (#[trigger] row@[q]) < n && depends_on(exprs@, i as int, row@[q] as int) by {
                                if q < before.len() {
                                    assert(row@[q] == before[q]);
                                }
                            }
                        }
                    } else {
                        proof {
                            assert(!vec_bytes(refs@).contains(x@));
                        }
                    }
                },
                None => {},
            }
            j = j + 1;
        }
        let ghost gb = graph@;
        graph.push(row);
        proof {
            assert forall|a: int, m: int| 0 <= a < i + 1 && 0 <= m < graph@[a]@.len() implies (#[trigger] graph@[a]@[m]) < n
                && depends_on(exprs@, a, graph@[a]@[m] as int) by {
                if a < i {
                    assert(graph@[a] == gb[a]);
                }
            }
            assert forall|a: int, b: int| 0 <= a < i + 1 && 0 <= b < n && depends_on(exprs@, a, b) implies #[trigger] graph@[a]@.contains(b as usize) by {
                if a < i {
                    assert(graph@[a] == gb[a]);
                }
            }
        }
        i = i + 1;
    }
    proof {
        let g = graph@.map_values(|d: Vec<usize>| d@);
        assert forall|a: int, m: int| 0 <= a < g.len() && 0 <= m < g[a].len() implies (#[trigger] g[a][m]) < g.len() by {
            assert(g[a] == graph@[a]@);
        }
    }
    graph
}

/// The order in which to evaluate a contract's top-level forms: each after
/// the definitions it refers to. Fails when definitions refer to each
/// other in a cycle, naming the forms caught in it by their index.
pub fn definition_order(exprs: &Vec<PreSymbolicExpression>) -> (r: Result<Vec<usize>, Vec<usize>>)
    ensures
        r matches Ok(order) ==> is_permutation(order@, exprs@.len()),
        r matches Ok(order) ==> forall|a: int, j: int|
            0 <= a < order@.len() && 0 <= j < exprs@.len() && #[trigger] depends_on(exprs@, order@[a] as int, j)
                ==> placed_before(order@, a, j as usize),
        r matches Err(left) ==> left@.len() > 0 && forall|a: int|
            0 <= a < left@.len() ==> (#[trigger] left@[a]) < exprs@.len() && exists|b: int|
                0 <= b < left@.len() && depends_on(exprs@, left@[a] as int, left@[b] as int),
        r is Ok <==> has_topological_order(exprs@),
{
    let graph = dependency_graph(exprs);
    let r = sort_definitions(&graph);
    let ghost rv = r;
    proof {
        let g = graph@.map_values(|d: Vec<usize>| d@);
        match rv {
            Ok(order) => {
                assert forall|a: int, j: int|
                    0 <= a < order@.len() && 0 <= j < exprs@.len() && #[trigger] depends_on(exprs@, order@[a] as int, j)
                    implies placed_before(order@, a, j as usize) by {
                    let i = order@[a] as int;
                    assert(graph@[i]@.contains(j as usize));
                    let m = choose|m: int| 0 <= m < graph@[i]@.len() && graph@[i]@[m] == j as usize;
                    assert(g[i] == graph@[i]@);
                    assert(placed_before(order@, a, g[order@[a] as int][m]));
                }
                assert(respects(order@, exprs@.len(), dep_of(exprs@)));
                assert(has_topological_order(exprs@));
            },
            Err(left) => {
                assert forall|a: int| 0 <= a < left@.len() implies (#[trigger] left@[a]) < exprs@.len() && exists|b: int|
                    0 <= b < left@.len() && depends_on(exprs@, left@[a] as int, left@[b] as int) by {
                    let q = left@[a] as int;
                    let (j, b) = choose|j: int, b: int| 0 <= j < graph@[q]@.len() && 0 <= b < left@.len() && left@[b] == graph@[q]@[j];
                    assert(depends_on(exprs@, q, graph@[q]@[j] as int));
                }
                assert(all_waiting(left@, exprs@.len(), dep_of(exprs@)));
                lemma_stuck_no_order(exprs@, left@);
            },
        }
    }
    r
}


/// Whether `order` puts each node after the nodes it depends on by `dep`.
pub open spec fn respects(order: Seq<usize>, n: nat, dep: spec_fn(int, int) -> bool) -> bool {
    forall|a: int, j: int| 0 <= a < order.len() && 0 <= j < n && #[trigger] dep(order[a] as int, j) ==> placed_before(order, a, j as usize)
}

/// The relation "form `i` refers to the name form `j` defines".
pub open spec fn dep_of(exprs: Seq<PreSymbolicExpression>) -> spec_fn(int, int) -> bool {
    |i: int, j: int| depends_on(exprs, i, j)
}

/// Whether some order of the forms puts each after the definitions it
/// refers to: the definitions refer to each other in no cycle.
pub open spec fn has_topological_order(exprs: Seq<PreSymbolicExpression>) -> bool {
    exists|order: Seq<usize>|
        is_permutation(order, exprs.len()) && #[trigger] respects(order, exprs.len(), dep_of(exprs))
}

/// A permutation of `0..n` lists every one of them.
proof fn lemma_permutation_covers(order: Seq<usize>, n: nat, k: usize)
    requires
        is_permutation(order, n),
        k < n,
    ensures
        exists|a: int| 0 <= a < order.len() && order[a] == k,
{
    if !(exists|a: int| 0 <= a < order.len() && order[a] == k) {
        let t = order.map_values(|x: usize| if x > k { (x - 1) as usize } else { x });
        assert forall|a: int| 0 <= a < t.len() implies (#[trigger] t[a]) < (n - 1) as nat by {
            assert(order[a] != k);
        }
        assert forall|a: int, b: int| 0 <= a < b < t.len() implies (#[trigger] t[a]) != (#[trigger] t[b]) by {
            assert(order[a] != k && order[b] != k && order[a] != order[b]);
        }
        lemma_distinct_bounded(t, (n - 1) as nat);
    }
}

/// Whether each of `left` depends by `dep` on another of them.
pub open spec fn all_waiting(left: Seq<usize>, n: nat, dep: spec_fn(int, int) -> bool) -> bool {
    forall|a: int| 0 <= a < left.len() ==> (#[trigger] left[a]) < n && exists|b: int| 0 <= b < left.len() && dep(left[a] as int, left[b] as int)
}

proof fn lemma_stuck_not_placed(order: Seq<usize>, n: nat, dep: spec_fn(int, int) -> bool, left: Seq<usize>, p: int)
    requires
        is_permutation(order, n),
        respects(order, n, dep),
        all_waiting(left, n, dep),
        p < order.len(),
    ensures
        forall|a: int, i: int| 0 <= a <= p && 0 <= i < left.len() ==> #[trigger] order[a] != #[trigger] left[i],
    decreases p + 1,
{
    if p >= 0 {
        lemma_stuck_not_placed(order, n, dep, left, p - 1);
        assert forall|a: int, i: int| 0 <= a <= p && 0 <= i < left.len() implies #[trigger] order[a] != #[trigger] left[i] by {
            if a == p && order[a] == left[i] {
                assert(left[i] < n);
                let b = choose|b: int| 0 <= b < left.len() && dep(left[i] as int, left[b] as int);
                let j = left[b] as int;
                assert(j < n);
                assert(dep(order[a] as int, j));
                assert(placed_before(order, a, j as usize));
                let c = choose|c: int| 0 <= c < a && order[c] == j as usize;
                assert(order[c] == left[b]);
            }
        }
    }
}

proof fn lemma_stuck_no_order_rel(order: Seq<usize>, n: nat, dep: spec_fn(int, int) -> bool, left: Seq<usize>)
    requires
        left.len() > 0,
        all_waiting(left, n, dep),
        is_permutation(order, n),
    ensures
        !respects(order, n, dep),
{
    if respects(order, n, dep) {
        assert(left[0] < n);
        lemma_permutation_covers(order, n, left[0]);
        let a = choose|a: int| 0 <= a < order.len() && order[a] == left[0];
        lemma_stuck_not_placed(order, n, dep, left, order.len() - 1);
        assert(order[a] != left[0]);
    }
}

/// When each form of a nonempty `left` waits on another, no topological
/// order exists.
proof fn lemma_stuck_no_order(exprs: Seq<PreSymbolicExpression>, left: Seq<usize>)
    requires
        left.len() > 0,
        all_waiting(left, exprs.len(), dep_of(exprs)),
    ensures
        !has_topological_order(exprs),
{
    let dep = dep_of(exprs);
    assert forall|order: Seq<usize>| is_permutation(order, exprs.len()) implies !#[trigger] respects(order, exprs.len(), dep) by {
        lemma_stuck_no_order_rel(order, exprs.len(), dep, left);
    }
}

} // verus!
