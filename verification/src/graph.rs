use std::collections::HashSet;

use vstd::prelude::*;

use crate::c3::{
    copy_vec, has_edge, inconsistent_at, is_path, lemma_edge_reaches, lemma_linearizations_fuel,
    lemma_linearizations_pointwise, lemma_mro_laws, lemma_reaches_first_step, linearization,
    lemma_reaches_prepend, mro_of, reaches_plus, seqs_view, well_formed,
};

verus! {

/// Each order in `mros` lists exactly its class and the classes it inherits from,
/// as the method resolution orders of `linearize_all` do.
pub open spec fn mros_list_ancestors(g: Seq<Seq<usize>>, mros: Seq<Vec<usize>>) -> bool {
    &&& mros.len() == g.len()
    &&& forall|i: usize, x: usize|
        i < g.len() ==> ((#[trigger] mros[i as int]@.contains(x)) <==> (x == i || reaches_plus(g, i, x)))
}

/// The orders `linearize_all` computes list exactly each class and its ancestors,
/// and a hierarchy where every class has an order is acyclic.
pub proof fn lemma_orders_list_ancestors(g: Seq<Seq<usize>>, mros: Seq<Vec<usize>>)
    requires
        mros.len() == g.len(),
        forall|i: usize| i < g.len() ==> mro_of(g, i) == Some(#[trigger] mros[i as int]@),
    ensures
        mros_list_ancestors(g, mros),
        acyclic(g),
{
    assert forall|i: usize, x: usize| i < g.len() implies ((#[trigger] mros[i as int]@.contains(x)) <==> (x == i
        || reaches_plus(g, i, x))) by {
        assert(mro_of(g, i) == Some(mros[i as int]@));
        lemma_mro_laws(g, i);
    }
    assert forall|i: usize| i < g.len() implies !#[trigger] reaches_plus(g, i, i) by {
        assert(mro_of(g, i) == Some(mros[i as int]@));
        if reaches_plus(g, i, i) {
            crate::c3::lemma_cycle_has_no_linearization(g, i, g.len());
        }
    }
}

/// No class of `g` inherits from itself.
pub open spec fn acyclic(g: Seq<Seq<usize>>) -> bool {
    forall|i: usize| i < g.len() ==> !#[trigger] reaches_plus(g, i, i)
}

/// The classes that class `i` inherits from, directly or not.
pub open spec fn classes_below(g: Seq<Seq<usize>>, i: usize) -> Set<usize> {
    Set::new(|x: usize| x < g.len() && reaches_plus(g, i, x))
}

/// How many classes class `i` inherits from; it falls along every base edge of an
/// acyclic hierarchy, so recursion over the bases ends.
pub open spec fn rank(g: Seq<Seq<usize>>, i: usize) -> nat {
    classes_below(g, i).len()
}

proof fn lemma_below_finite(g: Seq<Seq<usize>>, i: usize)
    ensures
        classes_below(g, i).finite(),
{
    broadcast use vstd::set_lib::full_set_properties;
    vstd::set_lib::lemma_set_subset_finite(Set::<usize>::full(), classes_below(g, i));
}

/// In an acyclic hierarchy a class inherits from fewer classes than there are.
pub proof fn lemma_rank_bound(g: Seq<Seq<usize>>, i: usize)
    requires
        acyclic(g),
        i < g.len(),
        g.len() <= usize::MAX,
    ensures
        rank(g, i) < g.len(),
{
    broadcast use vstd::set_lib::range_set_properties;
    let all = Set::<usize>::range(0, g.len() as usize);
    assert(all.len() == g.len());
    assert(classes_below(g, i).subset_of(all.remove(i)));
    vstd::set_lib::lemma_len_subset(classes_below(g, i), all.remove(i));
}

/// In an acyclic hierarchy a direct base inherits from fewer classes than the class.
pub proof fn lemma_rank_edge(g: Seq<Seq<usize>>, a: usize, t: int)
    requires
        well_formed(g),
        acyclic(g),
        a < g.len(),
        0 <= t < g[a as int].len(),
    ensures
        g[a as int][t] < g.len(),
        rank(g, g[a as int][t]) < rank(g, a),
{
    let b = g[a as int][t];
    assert(g[a as int].contains(b));
    lemma_edge_reaches(g, a, b);
    assert(has_edge(g, a, b));
    assert forall|x: usize| #[trigger] classes_below(g, b).contains(x) implies classes_below(g, a).remove(b).contains(x) by {
        lemma_reaches_prepend(g, a, b, x);
        if x == b {
            assert(reaches_plus(g, b, b));
        }
    }
    lemma_below_finite(g, a);
    vstd::set_lib::lemma_len_subset(classes_below(g, b), classes_below(g, a).remove(b));
    assert(classes_below(g, a).contains(b));
}

/// `b` is the first direct base of `from`, in declaration order, that is `target` or
/// inherits from it.
pub open spec fn first_step_toward(g: Seq<Seq<usize>>, from: usize, target: usize, b: usize) -> bool {
    &&& from < g.len()
    &&& exists|t: int|
        0 <= t < g[from as int].len() && g[from as int][t] == b && forall|u: int|
            0 <= u < t ==> !(#[trigger] g[from as int][u] == target || reaches_plus(
                g,
                g[from as int][u],
                target,
            ))
}

/// The `k`-th step of `p`, which starts at `start`, is the first direct base toward
/// `target`.
pub open spec fn step_toward(g: Seq<Seq<usize>>, start: usize, target: usize, p: Seq<usize>, k: int) -> bool {
    first_step_toward(
        g,
        if k == 0 {
            start
        } else {
            p[k - 1]
        },
        target,
        p[k],
    )
}

/// `p` leads from `start` to `target` by taking, at every class, the first direct base
/// that is `target` or inherits from it.
pub open spec fn leftmost_path(g: Seq<Seq<usize>>, start: usize, target: usize, p: Seq<usize>) -> bool {
    &&& p.len() >= 1
    &&& p[p.len() - 1] == target
    &&& forall|k: int| 0 <= k < p.len() - 1 ==> #[trigger] p[k] != target
    &&& forall|k: int| 0 <= k < p.len() ==> #[trigger] step_toward(g, start, target, p, k)
}

pub fn vec_contains(v: &Vec<usize>, x: usize) -> (res: bool)
    ensures
        res == v@.contains(x),
{
    let mut k: usize = 0;
    while k < v.len()
        invariant
            k <= v.len(),
            forall|j: int| 0 <= j < k ==> v@[j] != x,
        decreases v.len() - k,
    {
        if v[k] == x {
            assert(v@[k as int] == x);
            return true;
        }
        k = k + 1;
    }
    false
}

/// The chain of direct bases that leads from `start` to its ancestor `target`,
/// choosing at every class the first base in declaration order that is `target` or
/// inherits from it; `None` when `start` does not inherit from `target`.
pub fn find_base_path_in(bases: &[Vec<usize>], mros: &[Vec<usize>], start: usize, target: usize) -> (res:
    Option<Vec<usize>>)
    requires
        well_formed(seqs_view(bases@)),
        acyclic(seqs_view(bases@)),
        mros_list_ancestors(seqs_view(bases@), mros@),
        start < bases@.len(),
    ensures
        res is Some <==> reaches_plus(seqs_view(bases@), start, target),
        res matches Some(p) ==> leftmost_path(seqs_view(bases@), start, target, p@),
    decreases rank(seqs_view(bases@), start),
{
    let ghost g = seqs_view(bases@);
    let direct = &bases[start];
    assert(g[start as int] == direct@);
    let mut t: usize = 0;
    while t < direct.len()
        invariant
            g == seqs_view(bases@),
            well_formed(g),
            acyclic(g),
            mros_list_ancestors(g, mros@),
            start < g.len(),
            g[start as int] == direct@,
            t <= direct@.len(),
            forall|u: int|
                0 <= u < t ==> !(#[trigger] direct@[u] == target || reaches_plus(g, direct@[u], target)),
        decreases direct@.len() - t,
    {
        let base = direct[t];
        assert(base < g.len());
        proof {
            lemma_rank_edge(g, start, t as int);
            assert(mros@[base as int]@.contains(target) <==> (target == base || reaches_plus(g, base, target)));
        }
        if base == target {
            let mut path: Vec<usize> = Vec::new();
            path.push(base);
            proof {
                assert(direct@.contains(base));
                lemma_edge_reaches(g, start, base);
                assert(step_toward(g, start, target, path@, 0));
            }
            return Some(path);
        }
        if vec_contains(&mros[base], target) {
            let rest = match find_base_path_in(bases, mros, base, target) {
                Some(rest) => rest,
                None => return None,
            };
            let mut path: Vec<usize> = Vec::new();
            path.push(base);
            let mut tail = rest;
            let ghost rest_view = tail@;
            path.append(&mut tail);
            proof {
                assert(path@ =~= seq![base] + rest_view);
                assert(direct@.contains(base));
                lemma_reaches_prepend(g, start, base, target);
                assert(first_step_toward(g, start, target, base));
                assert forall|k: int| 0 <= k < path@.len() implies #[trigger] step_toward(
                    g,
                    start,
                    target,
                    path@,
                    k,
                ) by {
                    if k > 0 {
                        assert(path@[k] == rest_view[k - 1]);
                        assert(step_toward(g, base, target, rest_view, k - 1));
                        if k > 1 {
                            assert(path@[k - 1] == rest_view[k - 2]);
                        }
                    }
                }
                assert forall|k: int| 0 <= k < path@.len() - 1 implies #[trigger] path@[k] != target by {
                    if k > 0 {
                        assert(path@[k] == rest_view[k - 1]);
                    }
                }
            }
            return Some(path);
        }
        t = t + 1;
    }
    proof {
        if reaches_plus(g, start, target) {
            let b = lemma_reaches_first_step(g, start, target);
            let u = choose|u: int| 0 <= u < direct@.len() && direct@[u] == b;
            assert(direct@[u] == target || reaches_plus(g, direct@[u], target));
        }
    }
    None
}


// ---------------------------------------------------------------------------
// Paths to the subobjects of a class
// ---------------------------------------------------------------------------

/// `b` followed by each path of `ps`.
pub open spec fn prefix_all(b: usize, ps: Seq<Seq<usize>>) -> Seq<Seq<usize>> {
    ps.map_values(|p: Seq<usize>| seq![b] + p)
}

/// `pre` followed by each path of `ps`.
pub open spec fn prepend_all(pre: Seq<usize>, ps: Seq<Seq<usize>>) -> Seq<Seq<usize>> {
    ps.map_values(|p: Seq<usize>| pre + p)
}

/// Every chain of direct bases from class `i`, in depth-first order with the bases
/// of each class in declaration order, starting with the empty chain (the class
/// itself); at most `fuel` levels deep.
pub open spec fn subobject_paths(g: Seq<Seq<usize>>, i: usize, fuel: nat) -> Seq<Seq<usize>>
    decreases fuel, 0nat,
{
    if fuel == 0 || i >= g.len() {
        seq![Seq::empty()]
    } else {
        seq![Seq::empty()] + subobject_paths_list(g, g[i as int], (fuel - 1) as nat)
    }
}

/// The chains through each class of `bs` in turn, each starting with that class.
pub open spec fn subobject_paths_list(g: Seq<Seq<usize>>, bs: Seq<usize>, fuel: nat) -> Seq<
    Seq<usize>,
>
    decreases fuel, bs.len() + 1,
{
    if bs.len() == 0 {
        Seq::empty()
    } else {
        subobject_paths_list(g, bs.drop_last(), fuel) + prefix_all(
            bs.last(),
            subobject_paths(g, bs.last(), fuel),
        )
    }
}

/// Every chain of direct bases from class `i`, in depth-first order, starting with
/// the empty chain.
pub open spec fn all_base_paths(g: Seq<Seq<usize>>, i: usize) -> Seq<Seq<usize>> {
    subobject_paths(g, i, g.len())
}

/// Any fuel above the rank of a class unfolds all of its chains.
pub proof fn lemma_subobject_paths_fuel(g: Seq<Seq<usize>>, i: usize, f1: nat, f2: nat)
    requires
        well_formed(g),
        acyclic(g),
        i < g.len(),
        rank(g, i) < f1 <= f2,
    ensures
        subobject_paths(g, i, f2) == subobject_paths(g, i, f1),
    decreases f1, 0nat,
{
    assert forall|t: int| 0 <= t < g[i as int].len() implies #[trigger] g[i as int][t] < g.len() && rank(
        g,
        g[i as int][t],
    ) < (f1 - 1) as nat by {
        lemma_rank_edge(g, i, t);
    }
    lemma_subobject_paths_list_fuel(g, g[i as int], (f1 - 1) as nat, (f2 - 1) as nat);
}

pub proof fn lemma_subobject_paths_list_fuel(g: Seq<Seq<usize>>, bs: Seq<usize>, f1: nat, f2: nat)
    requires
        well_formed(g),
        acyclic(g),
        f1 <= f2,
        forall|t: int| 0 <= t < bs.len() ==> #[trigger] bs[t] < g.len() && rank(g, bs[t]) < f1,
    ensures
        subobject_paths_list(g, bs, f2) == subobject_paths_list(g, bs, f1),
    decreases f1, bs.len() + 1,
{
    if bs.len() > 0 {
        let rest = bs.drop_last();
        assert forall|t: int| 0 <= t < rest.len() implies #[trigger] rest[t] < g.len() && rank(g, rest[t]) < f1 by {
            assert(rest[t] == bs[t]);
        }
        lemma_subobject_paths_list_fuel(g, rest, f1, f2);
        assert(bs.last() == bs[bs.len() - 1]);
        lemma_subobject_paths_fuel(g, bs.last(), f1, f2);
    }
}

/// The class a chain of bases from `i` ends at.
pub open spec fn path_end(i: usize, p: Seq<usize>) -> usize {
    if p.len() == 0 {
        i
    } else {
        p[p.len() - 1]
    }
}

/// A base edge of the inheritance graph: the base class, whether it is inherited
/// virtually, and the type it is inherited as (`type_id` numbers the written base
/// types of a block, equal numbers for equal type texts).
#[derive(Clone, Copy, Debug, PartialEq, Eq, Structural)]
pub struct BaseEdge {
    pub base: usize,
    pub is_virtual: bool,
    pub type_id: usize,
}

/// The direct bases of each class, as listed by its edges.
pub open spec fn edge_graph(edges: Seq<Vec<BaseEdge>>) -> Seq<Seq<usize>> {
    edges.map_values(|es: Vec<BaseEdge>| es@.map_values(|e: BaseEdge| e.base))
}

fn collect_paths(
    base_edges: &[Vec<BaseEdge>],
    current: usize,
    steps: &Vec<usize>,
    paths: &mut Vec<Vec<usize>>,
)
    requires
        well_formed(edge_graph(base_edges@)),
        acyclic(edge_graph(base_edges@)),
        current < base_edges@.len(),
    ensures
        seqs_view(final(paths)@) == seqs_view(old(paths)@) + prepend_all(
            steps@,
            all_base_paths(edge_graph(base_edges@), current).drop_first(),
        ),
    decreases rank(edge_graph(base_edges@), current),
{
    let ghost g = edge_graph(base_edges@);
    let ghost n = g.len();
    let ghost start = seqs_view(paths@);
    let edges = &base_edges[current];
    assert(g[current as int] =~= edges@.map_values(|e: BaseEdge| e.base));
    proof {
        lemma_rank_bound(g, current);
        assert(g[current as int].take(0) =~= Seq::<usize>::empty());
    }
    let mut t: usize = 0;
    while t < edges.len()
        invariant
            g == edge_graph(base_edges@),
            n == g.len(),
            well_formed(g),
            acyclic(g),
            current < n,
            rank(g, current) < n,
            g[current as int] == edges@.map_values(|e: BaseEdge| e.base),
            t <= edges@.len(),
            seqs_view(paths@) == start + prepend_all(
                steps@,
                subobject_paths_list(g, g[current as int].take(t as int), (n - 1) as nat),
            ),
        decreases edges@.len() - t,
    {
        let base = edges[t].base;
        assert(g[current as int][t as int] == base);
        assert(base < n);
        let mut next_steps = copy_vec(steps);
        next_steps.push(base);
        let ghost before = seqs_view(paths@);
        paths.push(copy_vec(&next_steps));
        proof {
            lemma_rank_edge(g, current, t as int);
            lemma_subobject_paths_fuel(g, base, (n - 1) as nat, n);
        }
        let ghost mid = seqs_view(paths@);
        collect_paths(base_edges, base, &next_steps, paths);
        proof {
            let bp = subobject_paths(g, base, n);
            let taken = g[current as int].take(t as int);
            let taken1 = g[current as int].take(t + 1);
            assert(taken1.drop_last() =~= taken);
            assert(taken1.last() == base);
            assert(bp.len() >= 1 && bp[0] =~= Seq::<usize>::empty());
            let block = prepend_all(steps@, prefix_all(base, bp));
            assert(mid =~= before.push(next_steps@));
            assert(block =~= seq![next_steps@] + prepend_all(next_steps@, bp.drop_first())) by {
                assert forall|j: int| 0 <= j < block.len() implies #[trigger] block[j] == (seq![
                    next_steps@,
                ] + prepend_all(next_steps@, bp.drop_first()))[j] by {
                    if j == 0 {
                        assert(steps@ + (seq![base] + bp[0]) =~= next_steps@);
                    } else {
                        assert(steps@ + (seq![base] + bp[j]) =~= next_steps@ + bp.drop_first()[j - 1]);
                    }
                }
            }
            let lst = subobject_paths_list(g, taken1, (n - 1) as nat);
            assert(lst == subobject_paths_list(g, taken, (n - 1) as nat) + prefix_all(base, bp));
            assert(prepend_all(steps@, lst) =~= prepend_all(
                steps@,
                subobject_paths_list(g, taken, (n - 1) as nat),
            ) + block);
            assert(seqs_view(paths@) =~= start + prepend_all(steps@, lst));
        }
        t = t + 1;
    }
    proof {
        assert(g[current as int].take(edges@.len() as int) =~= g[current as int]);
        let all = subobject_paths(g, current, n);
        assert(all.drop_first() =~= subobject_paths_list(g, g[current as int], (n - 1) as nat));
    }
}

/// Appends to `paths` every chain of direct bases from `current` (every nonempty
/// path through the base edges), each preceded by `steps`, in depth-first order.
pub fn collect_all_inheritance_paths(
    base_edges: &[Vec<BaseEdge>],
    current: usize,
    steps: Vec<usize>,
    paths: &mut Vec<Vec<usize>>,
)
    requires
        well_formed(edge_graph(base_edges@)),
        acyclic(edge_graph(base_edges@)),
        current < base_edges@.len(),
    ensures
        seqs_view(final(paths)@) == seqs_view(old(paths)@) + prepend_all(
            steps@,
            all_base_paths(edge_graph(base_edges@), current).drop_first(),
        ),
{
    collect_paths(base_edges, current, &steps, paths);
}


// ---------------------------------------------------------------------------
// Virtual-table slots
// ---------------------------------------------------------------------------

/// A subobject of a class that carries a virtual table: the ancestor it is an
/// instance of, and the chain of direct bases that leads to it.
#[derive(Debug)]
pub struct VtableSlot {
    pub ancestor: usize,
    pub path: Vec<usize>,
}

pub open spec fn slots_view(v: Seq<VtableSlot>) -> Seq<(usize, Seq<usize>)> {
    v.map_values(|s: VtableSlot| (s.ancestor, s.path@))
}

/// The slots among the chains `ps` from class `i`: each chain whose end class has a
/// virtual interface, paired with that class, the chain preceded by `prefix`.
pub open spec fn interface_slots(
    has_interface: Seq<bool>,
    i: usize,
    prefix: Seq<usize>,
    ps: Seq<Seq<usize>>,
) -> Seq<(usize, Seq<usize>)>
    decreases ps.len(),
{
    if ps.len() == 0 {
        Seq::empty()
    } else {
        let q = ps.last();
        let e = path_end(i, q);
        interface_slots(has_interface, i, prefix, ps.drop_last()) + if has_interface[e as int] {
            seq![(e, prefix + q)]
        } else {
            Seq::empty()
        }
    }
}

proof fn lemma_interface_slots_concat(
    has_interface: Seq<bool>,
    i: usize,
    prefix: Seq<usize>,
    a: Seq<Seq<usize>>,
    b: Seq<Seq<usize>>,
)
    ensures
        interface_slots(has_interface, i, prefix, a + b) == interface_slots(
            has_interface,
            i,
            prefix,
            a,
        ) + interface_slots(has_interface, i, prefix, b),
    decreases b.len(),
{
    if b.len() == 0 {
        assert(a + b =~= a);
        assert(interface_slots(has_interface, i, prefix, a) + Seq::empty() =~= interface_slots(
            has_interface,
            i,
            prefix,
            a,
        ));
    } else {
        assert((a + b).drop_last() =~= a + b.drop_last());
        assert((a + b).last() == b.last());
        lemma_interface_slots_concat(has_interface, i, prefix, a, b.drop_last());
        let tail = if has_interface[path_end(i, b.last()) as int] {
            seq![(path_end(i, b.last()), prefix + b.last())]
        } else {
            Seq::empty()
        };
        assert(interface_slots(has_interface, i, prefix, a) + interface_slots(
            has_interface,
            i,
            prefix,
            b.drop_last(),
        ) + tail =~= interface_slots(has_interface, i, prefix, a) + (interface_slots(
            has_interface,
            i,
            prefix,
            b.drop_last(),
        ) + tail));
    }
}

proof fn lemma_interface_slots_prefix(
    has_interface: Seq<bool>,
    i: usize,
    prefix: Seq<usize>,
    b: usize,
    qs: Seq<Seq<usize>>,
)
    ensures
        interface_slots(has_interface, i, prefix, prefix_all(b, qs)) == interface_slots(
            has_interface,
            b,
            prefix.push(b),
            qs,
        ),
    decreases qs.len(),
{
    if qs.len() > 0 {
        let ps = prefix_all(b, qs);
        assert(ps.drop_last() =~= prefix_all(b, qs.drop_last()));
        lemma_interface_slots_prefix(has_interface, i, prefix, b, qs.drop_last());
        let q = qs.last();
        assert(ps.last() == seq![b] + q);
        assert(path_end(i, seq![b] + q) == path_end(b, q));
        assert(prefix + (seq![b] + q) =~= prefix.push(b) + q);
    }
}

fn collect_vtable_slots(
    bases: &[Vec<usize>],
    has_interface: &[bool],
    index: usize,
    path: &Vec<usize>,
    slots: &mut Vec<VtableSlot>,
)
    requires
        well_formed(seqs_view(bases@)),
        has_interface@.len() == bases@.len(),
        acyclic(seqs_view(bases@)),
        index < bases@.len(),
    ensures
        slots_view(final(slots)@) == slots_view(old(slots)@) + interface_slots(
            has_interface@,
            index,
            path@,
            all_base_paths(seqs_view(bases@), index),
        ),
    decreases rank(seqs_view(bases@), index),
{
    let ghost g = seqs_view(bases@);
    let ghost n = g.len();
    let ghost start = slots_view(slots@);
    let ghost empty_path = Seq::<usize>::empty();
    if has_interface[index] {
        slots.push(VtableSlot { ancestor: index, path: copy_vec(path) });
    }
    proof {
        assert(interface_slots(has_interface@, index, path@, seq![empty_path]) =~= if has_interface@[index as int] {
            seq![(index, path@)]
        } else {
            Seq::empty()
        }) by {
            let one = seq![empty_path];
            assert(one.drop_last() =~= Seq::<Seq<usize>>::empty());
            assert(one.last() == empty_path);
            assert(path_end(index, empty_path) == index);
            assert(path@ + empty_path =~= path@);
            assert(interface_slots(has_interface@, index, path@, one.drop_last()) =~= Seq::empty());
            let tail = if has_interface@[index as int] {
                seq![(index, path@ + empty_path)]
            } else {
                Seq::empty()
            };
            assert(Seq::<(usize, Seq<usize>)>::empty() + tail =~= tail);
        }
        assert(slots_view(slots@) =~= start + interface_slots(
            has_interface@,
            index,
            path@,
            seq![empty_path],
        ));
        lemma_rank_bound(g, index);
        assert(g[index as int].take(0) =~= Seq::<usize>::empty());
        assert(seq![empty_path] + Seq::<Seq<usize>>::empty() =~= seq![empty_path]);
    }
    let direct = &bases[index];
    assert(g[index as int] == direct@);
    let mut t: usize = 0;
    while t < direct.len()
        invariant
            g == seqs_view(bases@),
            n == g.len(),
            well_formed(g),
            has_interface@.len() == n,
            acyclic(g),
            index < n,
            rank(g, index) < n,
            g[index as int] == direct@,
            t <= direct@.len(),
            slots_view(slots@) == start + interface_slots(
                has_interface@,
                index,
                path@,
                seq![empty_path] + subobject_paths_list(g, direct@.take(t as int), (n - 1) as nat),
            ),
        decreases direct@.len() - t,
    {
        let base = direct[t];
        assert(base < n);
        let mut base_path = copy_vec(path);
        base_path.push(base);
        proof {
            lemma_rank_edge(g, index, t as int);
            lemma_subobject_paths_fuel(g, base, (n - 1) as nat, n);
        }
        let ghost before = slots_view(slots@);
        collect_vtable_slots(bases, has_interface, base, &base_path, slots);
        proof {
            let bp = subobject_paths(g, base, n);
            let taken = direct@.take(t as int);
            let taken1 = direct@.take(t + 1);
            assert(taken1.drop_last() =~= taken);
            assert(taken1.last() == base);
            let lst = subobject_paths_list(g, taken, (n - 1) as nat);
            let lst1 = subobject_paths_list(g, taken1, (n - 1) as nat);
            assert(lst1 == lst + prefix_all(base, bp));
            assert(seq![empty_path] + lst1 =~= (seq![empty_path] + lst) + prefix_all(base, bp));
            lemma_interface_slots_concat(
                has_interface@,
                index,
                path@,
                seq![empty_path] + lst,
                prefix_all(base, bp),
            );
            lemma_interface_slots_prefix(has_interface@, index, path@, base, bp);
            assert(base_path@ == path@.push(base));
            assert(slots_view(slots@) =~= start + interface_slots(
                has_interface@,
                index,
                path@,
                seq![empty_path] + lst1,
            ));
        }
        t = t + 1;
    }
    proof {
        assert(direct@.take(direct@.len() as int) =~= direct@);
    }
}

/// The virtual-table slots of class `index`: every chain of direct bases from it
/// (the empty chain first, then depth-first in declaration order) whose end class
/// has a virtual interface, paired with that class.
pub fn vtable_slots(bases: &[Vec<usize>], has_interface: &[bool], index: usize) -> (res: Vec<
    VtableSlot,
>)
    requires
        well_formed(seqs_view(bases@)),
        has_interface@.len() == bases@.len(),
        acyclic(seqs_view(bases@)),
        index < bases@.len(),
    ensures
        slots_view(res@) == interface_slots(
            has_interface@,
            index,
            Seq::empty(),
            all_base_paths(seqs_view(bases@), index),
        ),
{
    let mut slots: Vec<VtableSlot> = Vec::new();
    let path: Vec<usize> = Vec::new();
    collect_vtable_slots(bases, has_interface, index, &path, &mut slots);
    assert(slots_view(slots@) =~= Seq::<(usize, Seq<usize>)>::empty() + interface_slots(
        has_interface@,
        index,
        Seq::empty(),
        all_base_paths(seqs_view(bases@), index),
    ));
    slots
}


// ---------------------------------------------------------------------------
// Reachability and the bases that take part in the C3 linearization
// ---------------------------------------------------------------------------

/// How many of the classes `0..n` are not in `visited`.
pub open spec fn unvisited_count(visited: Set<usize>, n: nat) -> nat
    decreases n,
{
    if n == 0 {
        0
    } else {
        unvisited_count(visited, (n - 1) as nat) + if visited.contains((n - 1) as usize) {
            0nat
        } else {
            1nat
        }
    }
}

proof fn lemma_unvisited_count_le(v1: Set<usize>, v2: Set<usize>, n: nat)
    requires
        v1.subset_of(v2),
    ensures
        unvisited_count(v2, n) <= unvisited_count(v1, n),
        (exists|j: usize| j < n && v2.contains(j) && !v1.contains(j)) ==> unvisited_count(v2, n)
            < unvisited_count(v1, n),
    decreases n,
{
    if n > 0 {
        lemma_unvisited_count_le(v1, v2, (n - 1) as nat);
        if exists|j: usize| j < n && v2.contains(j) && !v1.contains(j) {
            let j = choose|j: usize| j < n && v2.contains(j) && !v1.contains(j);
            if j < n - 1 {
                assert(j < (n - 1) as nat && v2.contains(j) && !v1.contains(j));
            }
        }
    }
}

/// `v` is a class of `g`, none of its direct bases is `target`, and all of them are
/// in `set`.
pub open spec fn closed_avoiding(g: Seq<Seq<usize>>, set: Set<usize>, v: usize, target: usize) -> bool {
    &&& v < g.len()
    &&& forall|t: int|
        0 <= t < g[v as int].len() ==> #[trigger] g[v as int][t] != target && set.contains(
            g[v as int][t],
        )
}

proof fn lemma_closed_blocks(g: Seq<Seq<usize>>, set: Set<usize>, a: usize, target: usize)
    requires
        set.contains(a),
        forall|v: usize| #[trigger] set.contains(v) ==> closed_avoiding(g, set, v, target),
    ensures
        !reaches_plus(g, a, target),
{
    if reaches_plus(g, a, target) {
        let p = choose|p: Seq<usize>|
            p.len() >= 2 && p[0] == a && p[p.len() - 1] == target && #[trigger] is_path(g, p);
        assert forall|k: int| 0 <= k < p.len() - 1 implies set.contains(#[trigger] p[k]) by {
            lemma_path_prefix_in_set(g, set, p, target, k);
        }
        crate::c3::lemma_path_step(g, p, p.len() - 2);
        assert(set.contains(p[p.len() - 2]));
        assert(closed_avoiding(g, set, p[p.len() - 2], target));
        let v = p[p.len() - 2];
        let t = choose|t: int| 0 <= t < g[v as int].len() && g[v as int][t] == p[p.len() - 1];
        assert(g[v as int][t] != target);
    }
}

proof fn lemma_path_prefix_in_set(
    g: Seq<Seq<usize>>,
    set: Set<usize>,
    p: Seq<usize>,
    target: usize,
    k: int,
)
    requires
        p.len() >= 2,
        set.contains(p[0]),
        is_path(g, p),
        forall|v: usize| #[trigger] set.contains(v) ==> closed_avoiding(g, set, v, target),
        0 <= k < p.len() - 1,
    ensures
        set.contains(p[k]),
    decreases k,
{
    if k > 0 {
        lemma_path_prefix_in_set(g, set, p, target, k - 1);
        crate::c3::lemma_path_step(g, p, k - 1);
        let v = p[k - 1];
        assert(closed_avoiding(g, set, v, target));
        let t = choose|t: int| 0 <= t < g[v as int].len() && g[v as int][t] == p[k];
        assert(set.contains(g[v as int][t]));
    }
}

/// Whether `target` is reached from `current` through base edges, searching depth
/// first and skipping the classes already in `visited`, which it extends. Started
/// with an empty `visited`, the answer is exact.
pub fn reaches_base(
    base_edges: &[Vec<BaseEdge>],
    current: usize,
    target: usize,
    visited: &mut HashSet<usize>,
) -> (res: bool)
    requires
        well_formed(edge_graph(base_edges@)),
        current < base_edges@.len(),
    ensures
        old(visited)@.subset_of(final(visited)@),
        old(visited)@.contains(current) ==> !res && final(visited)@ == old(visited)@,
        final(visited)@.contains(current),
        res ==> reaches_plus(edge_graph(base_edges@), current, target),
        !res ==> final(visited)@.contains(current),
        !res ==> forall|v: usize|
            #[trigger] final(visited)@.contains(v) && !old(visited)@.contains(v) ==> closed_avoiding(
                edge_graph(base_edges@),
                final(visited)@,
                v,
                target,
            ),
        old(visited)@.is_empty() ==> (res <==> reaches_plus(
            edge_graph(base_edges@),
            current,
            target,
        )),
    decreases unvisited_count(old(visited)@, base_edges@.len() as nat),
{
    broadcast use vstd::std_specs::hash::group_hash_axioms;

    let ghost g = edge_graph(base_edges@);
    let ghost n = base_edges@.len();
    let ghost entry = visited@;
    if !visited.insert(current) {
        assert(visited@ =~= entry);
        return false;
    }
    let edges = &base_edges[current];
    assert(g[current as int] =~= edges@.map_values(|e: BaseEdge| e.base));
    let mut t: usize = 0;
    while t < edges.len()
        invariant
            g == edge_graph(base_edges@),
            n == base_edges@.len(),
            well_formed(g),
            current < n,
            g[current as int] == edges@.map_values(|e: BaseEdge| e.base),
            !entry.contains(current),
            visited@.contains(current),
            entry.subset_of(visited@),
            entry == old(visited)@,
            t <= edges@.len(),
            forall|u: int|
                0 <= u < t ==> #[trigger] g[current as int][u] != target && visited@.contains(
                    g[current as int][u],
                ),
            forall|v: usize|
                #[trigger] visited@.contains(v) && !entry.contains(v) && v != current
                    ==> closed_avoiding(g, visited@, v, target),
        decreases edges@.len() - t,
    {
        let base = edges[t].base;
        assert(g[current as int][t as int] == base);
        assert(base < n);
        proof {
            assert(g[current as int].contains(base));
        }
        if base == target {
            proof {
                crate::c3::lemma_edge_reaches(g, current, base);
            }
            return true;
        }
        let ghost before = visited@;
        proof {
            lemma_unvisited_count_le(entry, before, n as nat);
            assert(current < n && before.contains(current) && !entry.contains(current));
        }
        if reaches_base(base_edges, base, target, visited) {
            proof {
                crate::c3::lemma_reaches_prepend(g, current, base, target);
            }
            return true;
        }
        proof {
            assert forall|u: int| 0 <= u < t + 1 implies #[trigger] g[current as int][u] != target
                && visited@.contains(g[current as int][u]) by {
                if u < t {
                    assert(before.contains(g[current as int][u]));
                }
            }
            assert forall|v: usize|
                #[trigger] visited@.contains(v) && !entry.contains(v) && v != current
                    implies closed_avoiding(g, visited@, v, target) by {
                if before.contains(v) {
                    assert(closed_avoiding(g, before, v, target));
                    assert forall|u: int| 0 <= u < g[v as int].len() implies #[trigger] g[v as int][u]
                        != target && visited@.contains(g[v as int][u]) by {
                        assert(before.contains(g[v as int][u]));
                    }
                }
            }
        }
        t = t + 1;
    }
    proof {
        assert(closed_avoiding(g, visited@, current, target));
        if entry.is_empty() {
            lemma_closed_blocks(g, visited@, current, target);
        }
    }
    false
}


/// The first edge of `es` to the base `b`, if any.
pub open spec fn first_edge_to(es: Seq<BaseEdge>, b: usize) -> Option<BaseEdge>
    decreases es.len(),
{
    if es.len() == 0 {
        None
    } else if es[0].base == b {
        Some(es[0])
    } else {
        first_edge_to(es.drop_first(), b)
    }
}

/// Class `i` keeps its direct base `b` in the graph its C3 order is computed from:
/// unless the (first) edge to `b` is virtual and another direct base of `i` already
/// inherits from `b`.
pub open spec fn keeps_base(edges: Seq<Vec<BaseEdge>>, i: usize, b: usize) -> bool {
    match first_edge_to(edges[i as int]@, b) {
        None => true,
        Some(e) => !e.is_virtual || !exists|k: int|
            0 <= k < edges[i as int]@.len() && (#[trigger] edges[i as int]@[k]).base != b
                && reaches_plus(edge_graph(edges), edges[i as int]@[k].base, b),
    }
}

/// The bases of `bs` that class `i` keeps, in their order.
pub open spec fn kept_bases(edges: Seq<Vec<BaseEdge>>, i: usize, bs: Seq<usize>) -> Seq<usize>
    decreases bs.len(),
{
    if bs.len() == 0 {
        Seq::empty()
    } else {
        let rest = kept_bases(edges, i, bs.drop_last());
        if keeps_base(edges, i, bs.last()) {
            rest.push(bs.last())
        } else {
            rest
        }
    }
}

pub(crate) fn find_edge(es: &Vec<BaseEdge>, b: usize) -> (res: Option<BaseEdge>)
    ensures
        res == first_edge_to(es@, b),
{
    let mut k: usize = 0;
    assert(es@.subrange(0, es@.len() as int) =~= es@);
    while k < es.len()
        invariant
            k <= es@.len(),
            first_edge_to(es@, b) == first_edge_to(es@.subrange(k as int, es@.len() as int), b),
        decreases es@.len() - k,
    {
        let ghost rest = es@.subrange(k as int, es@.len() as int);
        assert(rest[0] == es@[k as int]);
        assert(rest.drop_first() =~= es@.subrange(k + 1, es@.len() as int));
        if es[k].base == b {
            return Some(es[k]);
        }
        k = k + 1;
    }
    assert(es@.subrange(k as int, es@.len() as int).len() == 0);
    None
}

fn keeps(base_edges: &[Vec<BaseEdge>], class_index: usize, base: usize) -> (res: bool)
    requires
        well_formed(edge_graph(base_edges@)),
        class_index < base_edges@.len(),
    ensures
        res == keeps_base(base_edges@, class_index, base),
{
    let ghost g = edge_graph(base_edges@);
    let edges = &base_edges[class_index];
    let edge = match find_edge(edges, base) {
        None => return true,
        Some(edge) => edge,
    };
    if !edge.is_virtual {
        return true;
    }
    let mut k: usize = 0;
    while k < edges.len()
        invariant
            g == edge_graph(base_edges@),
            well_formed(g),
            class_index < base_edges@.len(),
            edges@ == base_edges@[class_index as int]@,
            first_edge_to(edges@, base) == Some(edge),
            edge.is_virtual,
            k <= edges@.len(),
            forall|j: int|
                0 <= j < k ==> !((#[trigger] edges@[j]).base != base && reaches_plus(
                    g,
                    edges@[j].base,
                    base,
                )),
        decreases edges@.len() - k,
    {
        let other = edges[k].base;
        if other != base {
            proof {
                assert(g[class_index as int][k as int] == other);
            }
            let mut visited: HashSet<usize> = HashSet::new();
            if reaches_base(base_edges, other, base, &mut visited) {
                assert(base_edges@[class_index as int]@[k as int].base != base && reaches_plus(
                    g,
                    base_edges@[class_index as int]@[k as int].base,
                    base,
                ));
                return false;
            }
        }
        k = k + 1;
    }
    true
}

/// The direct bases each class linearizes over: a virtual base that another direct
/// base already inherits from is left to that base.
pub fn virtual_aware_mro_bases(base_edges: &[Vec<BaseEdge>], bases: &[Vec<usize>]) -> (res: Vec<
    Vec<usize>,
>)
    requires
        well_formed(edge_graph(base_edges@)),
        bases@.len() <= base_edges@.len(),
    ensures
        res@.len() == bases@.len(),
        forall|i: int|
            0 <= i < bases@.len() ==> (#[trigger] res@[i])@ == kept_bases(
                base_edges@,
                i as usize,
                bases@[i]@,
            ),
{
    let mut result: Vec<Vec<usize>> = Vec::new();
    let mut i: usize = 0;
    while i < bases.len()
        invariant
            well_formed(edge_graph(base_edges@)),
            bases@.len() <= base_edges@.len(),
            i <= bases@.len(),
            result@.len() == i,
            forall|j: int|
                0 <= j < i ==> (#[trigger] result@[j])@ == kept_bases(
                    base_edges@,
                    j as usize,
                    bases@[j]@,
                ),
        decreases bases@.len() - i,
    {
        let direct = &bases[i];
        let mut kept: Vec<usize> = Vec::new();
        let mut t: usize = 0;
        while t < direct.len()
            invariant
                well_formed(edge_graph(base_edges@)),
                bases@.len() <= base_edges@.len(),
                i < bases@.len(),
                direct@ == bases@[i as int]@,
                t <= direct@.len(),
                kept@ == kept_bases(base_edges@, i, direct@.take(t as int)),
            decreases direct@.len() - t,
        {
            let base = direct[t];
            proof {
                assert(direct@.take(t + 1).drop_last() =~= direct@.take(t as int));
                assert(direct@.take(t + 1).last() == base);
            }
            if keeps(base_edges, i, base) {
                kept.push(base);
            }
            t = t + 1;
        }
        assert(direct@.take(direct@.len() as int) =~= direct@);
        result.push(kept);
        i = i + 1;
    }
    result
}

/// Whether no class of the hierarchy inherits from itself.
pub fn is_acyclic(base_edges: &[Vec<BaseEdge>]) -> (res: bool)
    requires
        well_formed(edge_graph(base_edges@)),
    ensures
        res == acyclic(edge_graph(base_edges@)),
{
    let ghost g = edge_graph(base_edges@);
    let mut i: usize = 0;
    while i < base_edges.len()
        invariant
            g == edge_graph(base_edges@),
            well_formed(g),
            i <= base_edges@.len(),
            forall|j: usize| j < i ==> !#[trigger] reaches_plus(g, j, j),
        decreases base_edges@.len() - i,
    {
        let mut visited: HashSet<usize> = HashSet::new();
        proof {
            broadcast use vstd::std_specs::hash::group_hash_axioms;
            assert(visited@.is_empty());
        }
        if reaches_base(base_edges, i, i, &mut visited) {
            return false;
        }
        i = i + 1;
    }
    true
}

proof fn lemma_linearization_exists(g: Seq<Seq<usize>>, i: usize, f: nat)
    requires
        well_formed(g),
        acyclic(g),
        forall|c: usize| c < g.len() ==> !#[trigger] inconsistent_at(g, c),
        i < g.len(),
        rank(g, i) < f,
        f <= g.len(),
    ensures
        linearization(g, i, f) is Some,
    decreases f,
{
    let bs = g[i as int];
    assert forall|t: int| 0 <= t < bs.len() implies (#[trigger] linearization(g, bs[t], (f - 1) as nat)) is Some by {
        lemma_rank_edge(g, i, t);
        lemma_linearization_exists(g, bs[t], (f - 1) as nat);
    }
    lemma_linearizations_pointwise(g, bs, (f - 1) as nat);
    lemma_linearizations_fuel(g, bs, (f - 1) as nat, g.len());
    assert(!inconsistent_at(g, i));
}

/// Every class of a hierarchy has a C3 order exactly when no class inherits from
/// itself and no class's merge gets stuck: cycles and stuck merges are the only
/// ways `linearize_all` fails.
pub proof fn lemma_orders_exist_iff(g: Seq<Seq<usize>>)
    requires
        well_formed(g),
        g.len() <= usize::MAX,
    ensures
        (forall|i: usize| i < g.len() ==> (#[trigger] mro_of(g, i)) is Some) <==> (acyclic(g) && forall|c: usize|
            c < g.len() ==> !#[trigger] inconsistent_at(g, c)),
{
    if forall|i: usize| i < g.len() ==> (#[trigger] mro_of(g, i)) is Some {
        assert forall|i: usize| i < g.len() implies !#[trigger] reaches_plus(g, i, i) by {
            assert(mro_of(g, i) is Some);
            if reaches_plus(g, i, i) {
                crate::c3::lemma_cycle_has_no_linearization(g, i, g.len());
            }
        }
        assert forall|c: usize| c < g.len() implies !#[trigger] inconsistent_at(g, c) by {
            assert(mro_of(g, c) is Some);
            if inconsistent_at(g, c) {
                crate::c3::lemma_inconsistent_has_no_linearization(g, c, g.len());
            }
        }
    }
    if acyclic(g) && forall|c: usize| c < g.len() ==> !#[trigger] inconsistent_at(g, c) {
        assert forall|i: usize| i < g.len() implies (#[trigger] mro_of(g, i)) is Some by {
            lemma_rank_bound(g, i);
            lemma_linearization_exists(g, i, g.len());
        }
    }
}

} // verus!
