//! The subobjects of a class under virtual and non-virtual inheritance: which
//! chains of bases share storage, which ancestors are unambiguous, which paths
//! name a base for `as_base_via`, and which complete classes an owned downcast can
//! come from.

use vstd::prelude::*;

use crate::c3::{copy_vec, seqs_view, well_formed};
use crate::names::names_view;
use crate::text::str_eq;
use crate::types::{args_view, args_well_formed, chain_args, chain_arguments, same_types, types_view, TypeToken};
use crate::graph::{
    acyclic, all_base_paths, collect_all_inheritance_paths, edge_graph, find_edge, first_edge_to,
    path_end, prepend_all, subobject_paths, subobject_paths_list, vec_contains, BaseEdge,
};

verus! {

/// A subobject of a class: the ancestor it is an instance of, and the chain of
/// direct bases that leads to it from the class.
pub struct SubobjectView {
    pub class_index: usize,
    pub path: Vec<usize>,
}

pub open spec fn views_view(vs: Seq<SubobjectView>) -> Seq<(usize, Seq<usize>)> {
    vs.map_values(|v: SubobjectView| (v.class_index, v.path@))
}

/// The first edge from class `a` to `b` is virtual.
pub open spec fn edge_is_virtual(edges: Seq<Vec<BaseEdge>>, a: usize, b: usize) -> bool {
    a < edges.len() && (first_edge_to(edges[a as int]@, b) matches Some(e) && e.is_virtual)
}

/// Where the subobject at the end of chain `p` from class `start` is stored: after
/// the last virtual edge of the chain the shared subobject of that virtual base
/// (`Some(base)`), else the class itself (`None`), followed by the non-virtual
/// steps taken since. Two chains lead to the same subobject exactly when their
/// storage is equal.
pub open spec fn storage(edges: Seq<Vec<BaseEdge>>, start: usize, p: Seq<usize>) -> (Option<usize>, Seq<usize>)
    decreases p.len(),
{
    if p.len() == 0 {
        (None, Seq::empty())
    } else {
        let prev = storage(edges, start, p.drop_last());
        let next = p.last();
        if edge_is_virtual(edges, path_end(start, p.drop_last()), next) {
            (Some(next), Seq::empty())
        } else {
            (prev.0, prev.1.push(next))
        }
    }
}

/// Some chain of `ps` before index `k` has the storage of `ps[k]`.
pub open spec fn stored_before(edges: Seq<Vec<BaseEdge>>, start: usize, ps: Seq<Seq<usize>>, k: int) -> bool {
    exists|j: int| 0 <= j < k && storage(edges, start, #[trigger] ps[j]) == storage(edges, start, ps[k])
}

/// The subobjects reached by the first `k` chains of `ps`: each chain whose
/// storage no earlier chain has, with the class it ends at.
pub open spec fn distinct_subobjects(edges: Seq<Vec<BaseEdge>>, start: usize, ps: Seq<Seq<usize>>, k: nat) -> Seq<
    (usize, Seq<usize>),
>
    decreases k,
{
    if k == 0 {
        Seq::empty()
    } else {
        let prev = distinct_subobjects(edges, start, ps, (k - 1) as nat);
        if stored_before(edges, start, ps, k - 1) {
            prev
        } else {
            prev.push((path_end(start, ps[k - 1]), ps[k - 1]))
        }
    }
}

/// The subobjects of class `start`, in depth-first order over its chains of bases:
/// the class itself first, one subobject per chain of non-virtual edges, and one
/// shared subobject per virtual base however often it is reached.
pub open spec fn subobjects(edges: Seq<Vec<BaseEdge>>, start: usize) -> Seq<(usize, Seq<usize>)> {
    let ps = all_base_paths(edge_graph(edges), start);
    distinct_subobjects(edges, start, ps, ps.len())
}

/// The chains of bases of `start`, the empty chain first.
fn base_paths(edges: &[Vec<BaseEdge>], start: usize) -> (res: Vec<Vec<usize>>)
    requires
        well_formed(edge_graph(edges@)),
        acyclic(edge_graph(edges@)),
        start < edges@.len(),
    ensures
        seqs_view(res@) == all_base_paths(edge_graph(edges@), start),
{
    let ghost g = edge_graph(edges@);
    let mut paths: Vec<Vec<usize>> = Vec::new();
    paths.push(Vec::new());
    collect_all_inheritance_paths(edges, start, Vec::new(), &mut paths);
    proof {
        let all = all_base_paths(g, start);
        assert(all == seq![Seq::<usize>::empty()] + subobject_paths_list(g, g[start as int], (g.len() - 1) as nat));
        assert(prepend_all(Seq::<usize>::empty(), all.drop_first()) =~= all.drop_first()) by {
            assert forall|j: int| 0 <= j < all.drop_first().len() implies #[trigger] prepend_all(
                Seq::<usize>::empty(),
                all.drop_first(),
            )[j] == all.drop_first()[j] by {
                assert(Seq::<usize>::empty() + all.drop_first()[j] =~= all.drop_first()[j]);
            }
        }
        assert(seqs_view(paths@) =~= all);
    }
    paths
}

/// The storage of a chain (see `storage`).
fn storage_of(edges: &[Vec<BaseEdge>], start: usize, p: &Vec<usize>) -> (res: (Option<usize>, Vec<usize>))
    ensures
        (res.0, res.1@) == storage(edges@, start, p@),
{
    let mut anchor: Option<usize> = None;
    let mut steps: Vec<usize> = Vec::new();
    let mut current = start;
    let mut k: usize = 0;
    assert(p@.take(0) =~= Seq::<usize>::empty());
    while k < p.len()
        invariant
            k <= p@.len(),
            (anchor, steps@) == storage(edges@, start, p@.take(k as int)),
            current == path_end(start, p@.take(k as int)),
        decreases p@.len() - k,
    {
        let next = p[k];
        let ghost taken = p@.take(k + 1);
        assert(taken.drop_last() =~= p@.take(k as int));
        assert(taken.last() == next);
        let is_virtual = if current < edges.len() {
            match find_edge(&edges[current], next) {
                Some(e) => e.is_virtual,
                None => false,
            }
        } else {
            false
        };
        assert(is_virtual == edge_is_virtual(edges@, current, next));
        if is_virtual {
            anchor = Some(next);
            steps = Vec::new();
        } else {
            steps.push(next);
        }
        current = next;
        k = k + 1;
        assert(steps@ =~= storage(edges@, start, taken).1);
    }
    assert(p@.take(p@.len() as int) =~= p@);
    (anchor, steps)
}

fn same_storage(a: &(Option<usize>, Vec<usize>), b: &(Option<usize>, Vec<usize>)) -> (res: bool)
    ensures
        res == ((a.0, a.1@) == (b.0, b.1@)),
{
    if a.0 != b.0 || a.1.len() != b.1.len() {
        return false;
    }
    let mut k: usize = 0;
    while k < a.1.len()
        invariant
            a.1@.len() == b.1@.len(),
            k <= a.1@.len(),
            forall|j: int| 0 <= j < k ==> a.1@[j] == b.1@[j],
        decreases a.1@.len() - k,
    {
        if a.1[k] != b.1[k] {
            return false;
        }
        k = k + 1;
    }
    assert(a.1@ =~= b.1@);
    true
}

/// The subobjects of the chains `ps` (see `distinct_subobjects`).
fn distinct_views(edges: &[Vec<BaseEdge>], start: usize, ps: &Vec<Vec<usize>>) -> (res: Vec<SubobjectView>)
    ensures
        views_view(res@) == distinct_subobjects(edges@, start, seqs_view(ps@), ps@.len() as nat),
{
    let ghost pv = seqs_view(ps@);
    let mut stores: Vec<(Option<usize>, Vec<usize>)> = Vec::new();
    let mut res: Vec<SubobjectView> = Vec::new();
    let mut k: usize = 0;
    while k < ps.len()
        invariant
            pv == seqs_view(ps@),
            k <= ps@.len(),
            stores@.len() == k,
            forall|j: int| 0 <= j < k ==> (#[trigger] stores@[j].0, stores@[j].1@) == storage(edges@, start, pv[j]),
            views_view(res@) == distinct_subobjects(edges@, start, pv, k as nat),
        decreases ps@.len() - k,
    {
        assert(pv[k as int] == ps@[k as int]@);
        let st = storage_of(edges, start, &ps[k]);
        let mut seen = false;
        let mut j: usize = 0;
        while j < k
            invariant
                k < ps@.len(),
                stores@.len() == k,
                j <= k,
                forall|x: int| 0 <= x < k ==> (#[trigger] stores@[x].0, stores@[x].1@) == storage(edges@, start, pv[x]),
                (st.0, st.1@) == storage(edges@, start, pv[k as int]),
                seen == exists|x: int| 0 <= x < j && storage(edges@, start, #[trigger] pv[x]) == storage(edges@, start, pv[k as int]),
            decreases k - j,
        {
            if !seen && same_storage(&stores[j], &st) {
                seen = true;
                assert(storage(edges@, start, pv[j as int]) == storage(edges@, start, pv[k as int]));
            }
            proof {
                if !seen {
                    assert(storage(edges@, start, pv[j as int]) != storage(edges@, start, pv[k as int]));
                }
            }
            j = j + 1;
        }
        assert(seen == stored_before(edges@, start, pv, k as int));
        if !seen {
            let mut end = start;
            if ps[k].len() > 0 {
                end = ps[k][ps[k].len() - 1];
            }
            res.push(SubobjectView { class_index: end, path: copy_vec(&ps[k]) });
        }
        stores.push(st);
        proof {
            assert(((k + 1) - 1) as usize == k);
            assert(views_view(res@) =~= distinct_subobjects(edges@, start, pv, (k + 1) as nat));
        }
        k = k + 1;
    }
    res
}

/// The subobjects of class `start` (see `subobjects`).
pub fn subobject_views(edges: &[Vec<BaseEdge>], start: usize) -> (res: Vec<SubobjectView>)
    requires
        well_formed(edge_graph(edges@)),
        acyclic(edge_graph(edges@)),
        start < edges@.len(),
    ensures
        views_view(res@) == subobjects(edges@, start),
{
    let ps = base_paths(edges, start);
    distinct_views(edges, start, &ps)
}

/// Entry `i` of `s` is the only one of its class.
pub open spec fn unique_class(s: Seq<(usize, Seq<usize>)>, i: int) -> bool {
    forall|j: int| 0 <= j < s.len() && j != i ==> (#[trigger] s[j]).0 != s[i].0
}

/// The entries among the first `k` of `s` whose class no other entry has.
pub open spec fn unique_entries(s: Seq<(usize, Seq<usize>)>, k: nat) -> Seq<(usize, Seq<usize>)>
    decreases k,
{
    if k == 0 {
        Seq::empty()
    } else {
        let prev = unique_entries(s, (k - 1) as nat);
        if unique_class(s, k - 1) {
            prev.push(s[k - 1])
        } else {
            prev
        }
    }
}

/// The unambiguous ancestors of class `start`: the subobjects whose class is the
/// class of no other subobject. `as_base` reaches exactly these; the others
/// (a class inherited twice without a virtual edge) need `as_base_via`.
pub open spec fn ancestors_of(edges: Seq<Vec<BaseEdge>>, start: usize) -> Seq<(usize, Seq<usize>)> {
    unique_entries(subobjects(edges, start), subobjects(edges, start).len())
}

fn unique_views(vs: &Vec<SubobjectView>) -> (res: Vec<SubobjectView>)
    ensures
        views_view(res@) == unique_entries(views_view(vs@), vs@.len() as nat),
{
    let ghost s = views_view(vs@);
    let mut res: Vec<SubobjectView> = Vec::new();
    let mut i: usize = 0;
    while i < vs.len()
        invariant
            s == views_view(vs@),
            i <= vs@.len(),
            views_view(res@) == unique_entries(s, i as nat),
        decreases vs@.len() - i,
    {
        let mut unique = true;
        let mut j: usize = 0;
        while j < vs.len()
            invariant
                s == views_view(vs@),
                i < vs@.len(),
                j <= vs@.len(),
                unique == forall|x: int| 0 <= x < j && x != i ==> (#[trigger] s[x]).0 != s[i as int].0,
            decreases vs@.len() - j,
        {
            if j != i && vs[j].class_index == vs[i].class_index {
                unique = false;
                assert(s[j as int].0 == s[i as int].0);
            }
            j = j + 1;
        }
        assert(unique == unique_class(s, i as int));
        if unique {
            res.push(SubobjectView { class_index: vs[i].class_index, path: copy_vec(&vs[i].path) });
        }
        proof {
            assert(((i + 1) - 1) as usize == i);
            assert(views_view(res@) =~= unique_entries(s, (i + 1) as nat));
        }
        i = i + 1;
    }
    res
}

/// The unambiguous ancestors of class `start` (see `ancestors_of`).
pub fn ancestor_views(edges: &[Vec<BaseEdge>], start: usize) -> (res: Vec<SubobjectView>)
    requires
        well_formed(edge_graph(edges@)),
        acyclic(edge_graph(edges@)),
        start < edges@.len(),
    ensures
        views_view(res@) == ancestors_of(edges@, start),
{
    let vs = subobject_views(edges, start);
    unique_views(&vs)
}

/// The class that step `k` of chain `p` from `start` leaves.
pub open spec fn step_from(start: usize, p: Seq<usize>, k: int) -> usize {
    if k == 0 {
        start
    } else {
        p[k - 1]
    }
}

/// Step `k` of chain `p` from `start` follows a base edge.
pub open spec fn chain_step(g: Seq<Seq<usize>>, start: usize, p: Seq<usize>, k: int) -> bool {
    step_from(start, p, k) < g.len() && g[step_from(start, p, k) as int].contains(p[k])
}

/// `p` is a chain of direct bases from `start`.
pub open spec fn is_base_chain(g: Seq<Seq<usize>>, start: usize, p: Seq<usize>) -> bool {
    forall|k: int| 0 <= k < p.len() ==> #[trigger] chain_step(g, start, p, k)
}

/// The class that the chain of direct bases `path` from `start` ends at, as
/// `as_base_via` names it; `None` when `path` is not such a chain.
pub fn base_via_target(edges: &[Vec<BaseEdge>], start: usize, path: &[usize]) -> (res: Option<usize>)
    ensures
        res is Some <==> is_base_chain(edge_graph(edges@), start, path@),
        res matches Some(end) ==> end == path_end(start, path@),
{
    let ghost g = edge_graph(edges@);
    let mut current = start;
    let mut k: usize = 0;
    while k < path.len()
        invariant
            g == edge_graph(edges@),
            k <= path@.len(),
            current == step_from(start, path@, k as int),
            forall|x: int| 0 <= x < k ==> #[trigger] chain_step(g, start, path@, x),
        decreases path@.len() - k,
    {
        let next = path[k];
        if current >= edges.len() {
            assert(!chain_step(g, start, path@, k as int));
            return None;
        }
        let found = find_edge(&edges[current], next);
        proof {
            lemma_first_edge_contains(edges@[current as int]@, next);
            assert(g[current as int] == edges@[current as int]@.map_values(|e: BaseEdge| e.base));
        }
        if found.is_none() {
            assert(!chain_step(g, start, path@, k as int));
            return None;
        }
        assert(chain_step(g, start, path@, k as int));
        current = next;
        k = k + 1;
    }
    Some(current)
}

proof fn lemma_first_edge_contains(es: Seq<BaseEdge>, b: usize)
    ensures
        first_edge_to(es, b) is Some <==> es.map_values(|e: BaseEdge| e.base).contains(b),
    decreases es.len(),
{
    let bs = es.map_values(|e: BaseEdge| e.base);
    if es.len() > 0 {
        lemma_first_edge_contains(es.drop_first(), b);
        let rest = es.drop_first().map_values(|e: BaseEdge| e.base);
        assert(rest =~= bs.drop_first());
        if es[0].base != b {
            if bs.contains(b) {
                let j = choose|j: int| 0 <= j < bs.len() && bs[j] == b;
                assert(j > 0);
                assert(rest[j - 1] == b);
            }
        } else {
            assert(bs[0] == b);
        }
    }
}

/// Entries of `s` before index `k` with the class of `s[k]`.
pub open spec fn class_before(s: Seq<(usize, Seq<usize>)>, k: int) -> bool {
    exists|j: int| 0 <= j < k && (#[trigger] s[j]).0 == s[k].0
}

/// The first `k` entries of `s`, keeping the first entry of each class.
pub open spec fn first_per_class(s: Seq<(usize, Seq<usize>)>, k: nat) -> Seq<(usize, Seq<usize>)>
    decreases k,
{
    if k == 0 {
        Seq::empty()
    } else {
        let prev = first_per_class(s, (k - 1) as nat);
        if class_before(s, k - 1) {
            prev
        } else {
            prev.push(s[k - 1])
        }
    }
}

/// Each entry of `s` with `prefix` in front of its chain.
pub open spec fn prefixed(prefix: Seq<usize>, s: Seq<(usize, Seq<usize>)>) -> Seq<(usize, Seq<usize>)> {
    s.map_values(|v: (usize, Seq<usize>)| (v.0, prefix + v.1))
}

/// The classes a virtual table for the subobject of class `complete` at chain
/// `slot_path` (an instance of `ancestor`) can cast to, one chain each: first the
/// unambiguous ancestors of `ancestor`, reached through the slot, then the
/// unambiguous ancestors of `complete` not listed yet.
pub open spec fn cast_views(
    edges: Seq<Vec<BaseEdge>>,
    complete: usize,
    ancestor: usize,
    slot_path: Seq<usize>,
) -> Seq<(usize, Seq<usize>)> {
    let all = prefixed(slot_path, ancestors_of(edges, ancestor)) + ancestors_of(edges, complete);
    first_per_class(all, all.len())
}

/// The cast targets of a virtual table (see `cast_views`).
pub fn vtable_cast_views(edges: &[Vec<BaseEdge>], complete: usize, ancestor: usize, slot_path: &Vec<usize>) -> (res:
    Vec<SubobjectView>)
    requires
        well_formed(edge_graph(edges@)),
        acyclic(edge_graph(edges@)),
        complete < edges@.len(),
        ancestor < edges@.len(),
    ensures
        views_view(res@) == cast_views(edges@, complete, ancestor, slot_path@),
{
    let through = ancestor_views(edges, ancestor);
    let own = ancestor_views(edges, complete);
    let mut all: Vec<SubobjectView> = Vec::new();
    let mut k: usize = 0;
    while k < through.len()
        invariant
            k <= through@.len(),
            all@.len() == k,
            forall|j: int|
                0 <= j < k ==> (#[trigger] all@[j]).class_index == through@[j].class_index && all@[j].path@
                    == slot_path@ + through@[j].path@,
        decreases through@.len() - k,
    {
        let mut path = copy_vec(slot_path);
        let mut i: usize = 0;
        while i < through[k].path.len()
            invariant
                k < through@.len(),
                i <= through@[k as int].path@.len(),
                path@ == slot_path@ + through@[k as int].path@.take(i as int),
            decreases through@[k as int].path@.len() - i,
        {
            path.push(through[k].path[i]);
            proof {
                assert(through@[k as int].path@.take(i + 1) =~= through@[k as int].path@.take(i as int).push(
                    through@[k as int].path@[i as int],
                ));
            }
            i = i + 1;
        }
        assert(through@[k as int].path@.take(i as int) =~= through@[k as int].path@);
        all.push(SubobjectView { class_index: through[k].class_index, path });
        k = k + 1;
    }
    let m = all.len();
    k = 0;
    while k < own.len()
        invariant
            m == through@.len(),
            k <= own@.len(),
            all@.len() == m + k,
            forall|j: int|
                0 <= j < m ==> (#[trigger] all@[j]).class_index == through@[j].class_index && all@[j].path@
                    == slot_path@ + through@[j].path@,
            forall|j: int|
                0 <= j < k ==> (#[trigger] all@[m + j]).class_index == own@[j].class_index && all@[m + j].path@
                    == own@[j].path@,
        decreases own@.len() - k,
    {
        all.push(SubobjectView { class_index: own[k].class_index, path: copy_vec(&own[k].path) });
        assert(all@[m + k as int].class_index == own@[k as int].class_index);
        k = k + 1;
    }
    proof {
        let expected = prefixed(slot_path@, views_view(through@)) + views_view(own@);
        assert forall|j: int| 0 <= j < all@.len() implies #[trigger] views_view(all@)[j] == expected[j] by {
            if j < m {
                assert(all@[j].class_index == through@[j].class_index);
            } else {
                assert(all@[m + (j - m)].class_index == own@[j - m].class_index);
            }
        }
        assert(views_view(all@) =~= expected);
    }
    let ghost s = views_view(all@);
    assert(s == prefixed(slot_path@, ancestors_of(edges@, ancestor)) + ancestors_of(edges@, complete));
    let mut res: Vec<SubobjectView> = Vec::new();
    let mut i: usize = 0;
    while i < all.len()
        invariant
            s == views_view(all@),
            i <= all@.len(),
            views_view(res@) == first_per_class(s, i as nat),
        decreases all@.len() - i,
    {
        let mut seen = false;
        let mut j: usize = 0;
        while j < i
            invariant
                s == views_view(all@),
                i < all@.len(),
                j <= i,
                seen == exists|x: int| 0 <= x < j && (#[trigger] s[x]).0 == s[i as int].0,
            decreases i - j,
        {
            if all[j].class_index == all[i].class_index {
                assert(s[j as int].0 == s[i as int].0);
                seen = true;
            }
            j = j + 1;
        }
        if !seen {
            res.push(SubobjectView { class_index: all[i].class_index, path: copy_vec(&all[i].path) });
        }
        proof {
            assert(((i + 1) - 1) as usize == i);
            assert(views_view(res@) =~= first_per_class(s, (i + 1) as nat));
        }
        i = i + 1;
    }
    res
}

/// Some subobject of `subs` (the subobjects of a class `target`), reached through
/// chain `tp` of class `complete`, is stored where chain `sp` of `complete` leads.
pub open spec fn contains_in(
    edges: Seq<Vec<BaseEdge>>,
    complete: usize,
    subs: Seq<(usize, Seq<usize>)>,
    tp: Seq<usize>,
    sp: Seq<usize>,
) -> bool {
    exists|j: int| 0 <= j < subs.len() && storage(edges, complete, tp + (#[trigger] subs[j]).1) == storage(edges, complete, sp)
}

/// Chain `p` of class `complete` reaches an ancestor whose type arguments, in the
/// parameters of `complete`, are `wanted`.
pub open spec fn typed_as(
    edges: Seq<Vec<BaseEdge>>,
    args: Seq<Seq<Seq<Seq<TypeToken>>>>,
    n_params: Seq<usize>,
    complete: usize,
    p: Seq<usize>,
    wanted: Seq<Seq<TypeToken>>,
) -> bool {
    chain_args(edge_graph(edges), args, n_params, complete, p) == wanted
}

/// The chains of the first `k` entries of `s` (subobjects of `complete`) that lead
/// to an instance of `target` with the arguments `target_args` containing the
/// subobject at chain `sp`; `subs` are the subobjects of `target`.
pub open spec fn containing_targets(
    edges: Seq<Vec<BaseEdge>>,
    args: Seq<Seq<Seq<Seq<TypeToken>>>>,
    n_params: Seq<usize>,
    target_args: Seq<Seq<TypeToken>>,
    complete: usize,
    target: usize,
    s: Seq<(usize, Seq<usize>)>,
    subs: Seq<(usize, Seq<usize>)>,
    sp: Seq<usize>,
    k: nat,
) -> Seq<Seq<usize>>
    decreases k,
{
    if k == 0 {
        Seq::empty()
    } else {
        let prev = containing_targets(edges, args, n_params, target_args, complete, target, s, subs, sp, (k - 1) as nat);
        if s[k - 1].0 == target && typed_as(edges, args, n_params, complete, s[k - 1].1, target_args)
            && contains_in(edges, complete, subs, s[k - 1].1, sp) {
            prev.push(s[k - 1].1)
        } else {
            prev
        }
    }
}

/// The owned-downcast candidates that class `complete` gives from the first `k` of
/// its subobjects `s`: for each subobject of class `source` with the arguments
/// `source_args`, the one subobject of class `target` with the arguments
/// `target_args` that contains it, when there is exactly one.
pub open spec fn class_candidates(
    edges: Seq<Vec<BaseEdge>>,
    args: Seq<Seq<Seq<Seq<TypeToken>>>>,
    n_params: Seq<usize>,
    source_args: Seq<Seq<TypeToken>>,
    target_args: Seq<Seq<TypeToken>>,
    complete: usize,
    source: usize,
    target: usize,
    s: Seq<(usize, Seq<usize>)>,
    subs: Seq<(usize, Seq<usize>)>,
    k: nat,
) -> Seq<(usize, Seq<usize>, Seq<usize>)>
    decreases k,
{
    if k == 0 {
        Seq::empty()
    } else {
        let prev = class_candidates(
            edges,
            args,
            n_params,
            source_args,
            target_args,
            complete,
            source,
            target,
            s,
            subs,
            (k - 1) as nat,
        );
        let ts = containing_targets(edges, args, n_params, target_args, complete, target, s, subs, s[k - 1].1, s.len());
        if s[k - 1].0 == source && typed_as(edges, args, n_params, complete, s[k - 1].1, source_args) && ts.len() == 1 {
            prev.push((complete, s[k - 1].1, ts[0]))
        } else {
            prev
        }
    }
}

/// A complete class can hold a generic `target` downcast to: the target itself, or a
/// class whose generic parameters are named as the target's are, position by
/// position (none on both sides included).
pub open spec fn generics_compatible(keys: Seq<Seq<Seq<char>>>, target: usize, complete: usize) -> bool {
    target == complete || keys[target as int] == keys[complete as int]
}

/// The candidates of the first `c` classes: the concrete classes whose order lists
/// both `source` and `target` and whose generics fit the target's, each with its own
/// candidates.
pub open spec fn downcast_candidates(
    edges: Seq<Vec<BaseEdge>>,
    args: Seq<Seq<Seq<Seq<TypeToken>>>>,
    n_params: Seq<usize>,
    keys: Seq<Seq<Seq<char>>>,
    is_abstract: Seq<bool>,
    mros: Seq<Seq<usize>>,
    source: usize,
    target: usize,
    source_args: Seq<Seq<TypeToken>>,
    target_args: Seq<Seq<TypeToken>>,
    c: nat,
) -> Seq<(usize, Seq<usize>, Seq<usize>)>
    decreases c,
{
    if c == 0 {
        Seq::empty()
    } else {
        let k = (c - 1) as usize;
        let prev = downcast_candidates(
            edges,
            args,
            n_params,
            keys,
            is_abstract,
            mros,
            source,
            target,
            source_args,
            target_args,
            (c - 1) as nat,
        );
        if !is_abstract[k as int] && mros[k as int].contains(source) && mros[k as int].contains(target)
            && generics_compatible(keys, target, k) {
            prev + class_candidates(
                edges,
                args,
                n_params,
                source_args,
                target_args,
                k,
                source,
                target,
                subobjects(edges, k),
                subobjects(edges, target),
                subobjects(edges, k).len(),
            )
        } else {
            prev
        }
    }
}

/// Where an owned value of class `source` can be downcast to `target`: the complete
/// class, the chain to the source subobject and the chain to the target subobject.
pub struct DowncastCandidate {
    pub complete: usize,
    pub source_path: Vec<usize>,
    pub target_path: Vec<usize>,
}

pub open spec fn candidates_view(cs: Seq<DowncastCandidate>) -> Seq<(usize, Seq<usize>, Seq<usize>)> {
    cs.map_values(|c: DowncastCandidate| (c.complete, c.source_path@, c.target_path@))
}

fn concat_path(a: &Vec<usize>, b: &Vec<usize>) -> (res: Vec<usize>)
    ensures
        res@ == a@ + b@,
{
    let mut res = copy_vec(a);
    let mut i: usize = 0;
    while i < b.len()
        invariant
            i <= b@.len(),
            res@ == a@ + b@.take(i as int),
        decreases b@.len() - i,
    {
        res.push(b[i]);
        assert(b@.take(i + 1) =~= b@.take(i as int).push(b@[i as int]));
        i = i + 1;
    }
    assert(b@.take(b@.len() as int) =~= b@);
    res
}

fn contains_exec(
    edges: &[Vec<BaseEdge>],
    complete: usize,
    subs: &Vec<SubobjectView>,
    tp: &Vec<usize>,
    sp: &Vec<usize>,
) -> (res: bool)
    ensures
        res == contains_in(edges@, complete, views_view(subs@), tp@, sp@),
{
    let ghost sv = views_view(subs@);
    let source = storage_of(edges, complete, sp);
    let mut j: usize = 0;
    while j < subs.len()
        invariant
            sv == views_view(subs@),
            j <= subs@.len(),
            (source.0, source.1@) == storage(edges@, complete, sp@),
            forall|x: int| 0 <= x < j ==> storage(edges@, complete, tp@ + (#[trigger] sv[x]).1) != storage(edges@, complete, sp@),
        decreases subs@.len() - j,
    {
        let path = concat_path(tp, &subs[j].path);
        let st = storage_of(edges, complete, &path);
        assert(sv[j as int].1 == subs@[j as int].path@);
        if same_storage(&st, &source) {
            return true;
        }
        j = j + 1;
    }
    false
}

fn edge_lists(edges: &[Vec<BaseEdge>]) -> (res: Vec<Vec<usize>>)
    ensures
        seqs_view(res@) == edge_graph(edges@),
{
    let mut res: Vec<Vec<usize>> = Vec::new();
    let mut c: usize = 0;
    while c < edges.len()
        invariant
            c <= edges@.len(),
            res@.len() == c,
            forall|x: int| 0 <= x < c ==> (#[trigger] res@[x])@ == edge_graph(edges@)[x],
        decreases edges@.len() - c,
    {
        let mut bs: Vec<usize> = Vec::new();
        let mut t: usize = 0;
        while t < edges[c].len()
            invariant
                c < edges@.len(),
                t <= edges@[c as int]@.len(),
                bs@ == edges@[c as int]@.take(t as int).map_values(|e: BaseEdge| e.base),
            decreases edges@[c as int]@.len() - t,
        {
            bs.push(edges[c][t].base);
            assert(bs@ =~= edges@[c as int]@.take(t + 1).map_values(|e: BaseEdge| e.base));
            t = t + 1;
        }
        assert(edges@[c as int]@.take(edges@[c as int]@.len() as int) =~= edges@[c as int]@);
        assert(bs@ == edge_graph(edges@)[c as int]);
        res.push(bs);
        c = c + 1;
    }
    assert(seqs_view(res@) =~= edge_graph(edges@));
    res
}

fn same_key(a: &Vec<String>, b: &Vec<String>) -> (res: bool)
    ensures
        res == (names_view(a@) == names_view(b@)),
{
    if a.len() != b.len() {
        assert(names_view(a@).len() != names_view(b@).len());
        return false;
    }
    let mut k: usize = 0;
    while k < a.len()
        invariant
            a@.len() == b@.len(),
            k <= a@.len(),
            forall|j: int| 0 <= j < k ==> a@[j]@ == b@[j]@,
        decreases a@.len() - k,
    {
        if !str_eq(a[k].as_str(), b[k].as_str()) {
            assert(names_view(a@)[k as int] != names_view(b@)[k as int]);
            return false;
        }
        k = k + 1;
    }
    assert(names_view(a@) =~= names_view(b@));
    true
}

fn containing_exec(
    edges: &[Vec<BaseEdge>],
    bases: &Vec<Vec<usize>>,
    args: &[Vec<Vec<Vec<TypeToken>>>],
    n_params: &[usize],
    target_args: &Vec<Vec<TypeToken>>,
    complete: usize,
    target: usize,
    views: &Vec<SubobjectView>,
    subs: &Vec<SubobjectView>,
    sp: &Vec<usize>,
) -> (res: Vec<Vec<usize>>)
    requires
        seqs_view(bases@) == edge_graph(edges@),
        args_well_formed(edge_graph(edges@), args_view(args@), n_params@),
        complete < edges@.len(),
    ensures
        seqs_view(res@) == containing_targets(
            edges@,
            args_view(args@),
            n_params@,
            types_view(target_args@),
            complete,
            target,
            views_view(views@),
            views_view(subs@),
            sp@,
            views@.len() as nat,
        ),
{
    let ghost s = views_view(views@);
    let ghost av = args_view(args@);
    let ghost ta = types_view(target_args@);
    let mut res: Vec<Vec<usize>> = Vec::new();
    let mut i: usize = 0;
    while i < views.len()
        invariant
            s == views_view(views@),
            av == args_view(args@),
            ta == types_view(target_args@),
            seqs_view(bases@) == edge_graph(edges@),
            args_well_formed(edge_graph(edges@), av, n_params@),
            complete < edges@.len(),
            i <= views@.len(),
            seqs_view(res@) == containing_targets(edges@, av, n_params@, ta, complete, target, s, views_view(subs@), sp@, i as nat),
        decreases views@.len() - i,
    {
        if views[i].class_index == target {
            let found = chain_arguments(bases.as_slice(), args, n_params, complete, &views[i].path);
            if same_types(&found, target_args) && contains_exec(edges, complete, subs, &views[i].path, sp) {
                res.push(copy_vec(&views[i].path));
            }
        }
        proof {
            assert(((i + 1) - 1) as usize == i);
            assert(seqs_view(res@) =~= containing_targets(edges@, av, n_params@, ta, complete, target, s, views_view(subs@), sp@, (i + 1) as nat));
        }
        i = i + 1;
    }
    res
}

/// The owned-downcast candidates from `source` to `target` (see
/// `downcast_candidates`): `is_abstract` marks the abstract classes, `mros` holds
/// the method resolution orders, `args[c][t]` are the type arguments on the `t`-th
/// base edge of class `c`, `n_params[c]` and `param_keys[c]` give the generic
/// parameters of `c`, and `source_args` and `target_args` are the arguments of the
/// source and target types in the parameters of a complete class.
pub fn owned_downcast_candidates(
    is_abstract: &[bool],
    mros: &[Vec<usize>],
    edges: &[Vec<BaseEdge>],
    args: &[Vec<Vec<Vec<TypeToken>>>],
    n_params: &[usize],
    param_keys: &[Vec<String>],
    source: usize,
    target: usize,
    source_args: &Vec<Vec<TypeToken>>,
    target_args: &Vec<Vec<TypeToken>>,
) -> (res: Vec<DowncastCandidate>)
    requires
        well_formed(edge_graph(edges@)),
        acyclic(edge_graph(edges@)),
        args_well_formed(edge_graph(edges@), args_view(args@), n_params@),
        target < edges@.len(),
        is_abstract@.len() == edges@.len(),
        mros@.len() == edges@.len(),
        param_keys@.len() == edges@.len(),
    ensures
        candidates_view(res@) == downcast_candidates(
            edges@,
            args_view(args@),
            n_params@,
            param_keys@.map_values(|k: Vec<String>| names_view(k@)),
            is_abstract@,
            seqs_view(mros@),
            source,
            target,
            types_view(source_args@),
            types_view(target_args@),
            edges@.len() as nat,
        ),
{
    let ghost mv = seqs_view(mros@);
    let ghost av = args_view(args@);
    let ghost kv = param_keys@.map_values(|k: Vec<String>| names_view(k@));
    let ghost sa = types_view(source_args@);
    let ghost ta = types_view(target_args@);
    let bases = edge_lists(edges);
    let subs = subobject_views(edges, target);
    let mut res: Vec<DowncastCandidate> = Vec::new();
    let mut c: usize = 0;
    while c < edges.len()
        invariant
            mv == seqs_view(mros@),
            av == args_view(args@),
            kv == param_keys@.map_values(|k: Vec<String>| names_view(k@)),
            sa == types_view(source_args@),
            ta == types_view(target_args@),
            seqs_view(bases@) == edge_graph(edges@),
            well_formed(edge_graph(edges@)),
            acyclic(edge_graph(edges@)),
            args_well_formed(edge_graph(edges@), av, n_params@),
            target < edges@.len(),
            is_abstract@.len() == edges@.len(),
            mros@.len() == edges@.len(),
            param_keys@.len() == edges@.len(),
            views_view(subs@) == subobjects(edges@, target),
            c <= edges@.len(),
            candidates_view(res@) == downcast_candidates(edges@, av, n_params@, kv, is_abstract@, mv, source, target, sa, ta, c as nat),
        decreases edges@.len() - c,
    {
        let ghost before = candidates_view(res@);
        assert(mv[c as int] == mros@[c as int]@);
        assert(kv[c as int] == names_view(param_keys@[c as int]@));
        assert(kv[target as int] == names_view(param_keys@[target as int]@));
        let compatible = c == target || same_key(&param_keys[target], &param_keys[c]);
        if !is_abstract[c] && vec_contains(&mros[c], source) && vec_contains(&mros[c], target) && compatible {
            let views = subobject_views(edges, c);
            let ghost s = views_view(views@);
            let mut k: usize = 0;
            while k < views.len()
                invariant
                    s == views_view(views@),
                    s == subobjects(edges@, c),
                    av == args_view(args@),
                    sa == types_view(source_args@),
                    ta == types_view(target_args@),
                    seqs_view(bases@) == edge_graph(edges@),
                    args_well_formed(edge_graph(edges@), av, n_params@),
                    c < edges@.len(),
                    views_view(subs@) == subobjects(edges@, target),
                    k <= views@.len(),
                    candidates_view(res@) == before + class_candidates(
                        edges@,
                        av,
                        n_params@,
                        sa,
                        ta,
                        c,
                        source,
                        target,
                        s,
                        views_view(subs@),
                        k as nat,
                    ),
                decreases views@.len() - k,
            {
                let ghost prev = candidates_view(res@);
                assert(s[k as int] == (views@[k as int].class_index, views@[k as int].path@));
                if views[k].class_index == source {
                    let found = chain_arguments(bases.as_slice(), args, n_params, c, &views[k].path);
                    if same_types(&found, source_args) {
                        let ts = containing_exec(
                            edges,
                            &bases,
                            args,
                            n_params,
                            target_args,
                            c,
                            target,
                            &views,
                            &subs,
                            &views[k].path,
                        );
                        assert(seqs_view(ts@).len() == ts@.len());
                        if ts.len() == 1 {
                            res.push(
                                DowncastCandidate {
                                    complete: c,
                                    source_path: copy_vec(&views[k].path),
                                    target_path: copy_vec(&ts[0]),
                                },
                            );
                            proof {
                                assert(seqs_view(ts@)[0] == ts@[0]@);
                                assert(candidates_view(res@) =~= prev.push((c, s[k as int].1, seqs_view(ts@)[0])));
                            }
                        }
                    }
                }
                proof {
                    assert(((k + 1) - 1) as usize == k);
                    assert(candidates_view(res@) =~= before + class_candidates(
                        edges@,
                        av,
                        n_params@,
                        sa,
                        ta,
                        c,
                        source,
                        target,
                        s,
                        views_view(subs@),
                        (k + 1) as nat,
                    ));
                }
                k = k + 1;
            }
        }
        proof {
            assert(((c + 1) - 1) as usize == c);
            assert(candidates_view(res@) =~= downcast_candidates(edges@, av, n_params@, kv, is_abstract@, mv, source, target, sa, ta, (c + 1) as nat));
        }
        c = c + 1;
    }
    res
}

/// The `as_base_via` names of the subobject at chain `p`: each class along the
/// chain before its end, then each run of two or more leading classes of the chain
/// short of its end; a chain of one step is named by its only class.
pub open spec fn via_candidates(p: Seq<usize>) -> Seq<Seq<usize>> {
    if p.len() == 0 {
        Seq::empty()
    } else if p.len() == 1 {
        seq![seq![p[0]]]
    } else {
        Seq::new((p.len() - 1) as nat, |i: int| seq![p[i]]) + Seq::new(
            (p.len() - 2) as nat,
            |j: int| p.take(j + 2),
        )
    }
}

/// The first `k` entries of `cs`, keeping the first of equal ones.
pub open spec fn first_occurrences(cs: Seq<Seq<usize>>, k: nat) -> Seq<Seq<usize>>
    decreases k,
{
    if k == 0 {
        Seq::empty()
    } else {
        let prev = first_occurrences(cs, (k - 1) as nat);
        if exists|j: int| 0 <= j < k - 1 && #[trigger] cs[j] == cs[k - 1] {
            prev
        } else {
            prev.push(cs[k - 1])
        }
    }
}

/// The chains of the first `k` entries of `s` that end at class `cls`.
pub open spec fn chains_of_class(s: Seq<(usize, Seq<usize>)>, cls: usize, k: nat) -> Seq<Seq<usize>>
    decreases k,
{
    if k == 0 {
        Seq::empty()
    } else {
        let prev = chains_of_class(s, cls, (k - 1) as nat);
        if s[k - 1].0 == cls {
            prev.push(s[k - 1].1)
        } else {
            prev
        }
    }
}

/// Name `c` belongs to the chain `vs[i]` and to no other chain of `vs`.
pub open spec fn only_in(vs: Seq<Seq<usize>>, i: int, c: Seq<usize>) -> bool {
    forall|j: int| 0 <= j < vs.len() && j != i ==> !via_candidates(#[trigger] vs[j]).contains(c)
}

/// For the chains `vs` to one ambiguous class `cls`, chain by chain, the first `k`
/// names of chain `vs[i]` that name it alone.
pub open spec fn names_of_chain(
    cls: usize,
    vs: Seq<Seq<usize>>,
    i: int,
    names: Seq<Seq<usize>>,
    k: nat,
) -> Seq<(usize, Seq<usize>, Seq<usize>)>
    decreases k,
{
    if k == 0 {
        Seq::empty()
    } else {
        let prev = names_of_chain(cls, vs, i, names, (k - 1) as nat);
        if only_in(vs, i, names[k - 1]) {
            prev.push((cls, vs[i], names[k - 1]))
        } else {
            prev
        }
    }
}

/// The `as_base_via` views of the first `k` chains `vs` to the ambiguous class
/// `cls`: each chain with each of its names that no other of the chains has.
pub open spec fn group_via_views(cls: usize, vs: Seq<Seq<usize>>, k: nat) -> Seq<(usize, Seq<usize>, Seq<usize>)>
    decreases k,
{
    if k == 0 {
        Seq::empty()
    } else {
        let i = k - 1;
        let names = first_occurrences(via_candidates(vs[i]), via_candidates(vs[i]).len());
        group_via_views(cls, vs, (k - 1) as nat) + names_of_chain(cls, vs, i, names, names.len())
    }
}

/// The `as_base_via` views of class `start` from its first `k` subobjects `s`: for
/// each class reached by more than one subobject, in the order the classes first
/// appear, the views of its group.
pub open spec fn via_views_upto(s: Seq<(usize, Seq<usize>)>, k: nat) -> Seq<(usize, Seq<usize>, Seq<usize>)>
    decreases k,
{
    if k == 0 {
        Seq::empty()
    } else {
        let prev = via_views_upto(s, (k - 1) as nat);
        let cls = s[k - 1].0;
        if !class_before(s, k - 1) && !unique_class(s, k - 1) {
            let vs = chains_of_class(s, cls, s.len());
            prev + group_via_views(cls, vs, vs.len())
        } else {
            prev
        }
    }
}

/// A subobject of an ambiguous class, named for `as_base_via` by a chain of
/// classes that leads to it alone.
pub struct BaseViaView {
    pub class_index: usize,
    pub path: Vec<usize>,
    pub via: Vec<usize>,
}

pub open spec fn via_view_seq(vs: Seq<BaseViaView>) -> Seq<(usize, Seq<usize>, Seq<usize>)> {
    vs.map_values(|v: BaseViaView| (v.class_index, v.path@, v.via@))
}

fn prefix_of(p: &Vec<usize>, n: usize) -> (res: Vec<usize>)
    requires
        n <= p@.len(),
    ensures
        res@ == p@.take(n as int),
{
    let mut res: Vec<usize> = Vec::new();
    let mut i: usize = 0;
    while i < n
        invariant
            i <= n <= p@.len(),
            res@ == p@.take(i as int),
        decreases n - i,
    {
        res.push(p[i]);
        assert(p@.take(i + 1) =~= p@.take(i as int).push(p@[i as int]));
        i = i + 1;
    }
    res
}

proof fn lemma_seqs_push(a: Seq<Vec<usize>>, x: Vec<usize>)
    ensures
        seqs_view(a.push(x)) == seqs_view(a).push(x@),
{
    assert(seqs_view(a.push(x)) =~= seqs_view(a).push(x@));
}

proof fn lemma_via_push(a: Seq<BaseViaView>, x: BaseViaView)
    ensures
        via_view_seq(a.push(x)) == via_view_seq(a).push((x.class_index, x.path@, x.via@)),
{
    assert(via_view_seq(a.push(x)) =~= via_view_seq(a).push((x.class_index, x.path@, x.via@)));
}

fn via_candidates_of(p: &Vec<usize>) -> (res: Vec<Vec<usize>>)
    ensures
        seqs_view(res@) == via_candidates(p@),
{
    let mut res: Vec<Vec<usize>> = Vec::new();
    if p.len() == 0 {
        assert(seqs_view(res@) =~= via_candidates(p@));
        return res;
    }
    if p.len() == 1 {
        let mut one: Vec<usize> = Vec::new();
        one.push(p[0]);
        res.push(one);
        assert(seqs_view(res@) =~= via_candidates(p@));
        return res;
    }
    let n = p.len() - 1;
    let mut i: usize = 0;
    while i < n
        invariant
            n == p@.len() - 1,
            i <= n,
            seqs_view(res@) == Seq::new(i as nat, |x: int| seq![p@[x]]),
        decreases n - i,
    {
        let mut one: Vec<usize> = Vec::new();
        one.push(p[i]);
        assert(one@ =~= seq![p@[i as int]]);
        proof {
            lemma_seqs_push(res@, one);
        }
        res.push(one);
        assert(seqs_view(res@) =~= Seq::new((i + 1) as nat, |x: int| seq![p@[x]]));
        i = i + 1;
    }
    let ghost singles = seqs_view(res@);
    let mut j: usize = 0;
    while j + 1 < n
        invariant
            n == p@.len() - 1,
            n >= 1,
            j <= n - 1,
            singles == Seq::new(n as nat, |x: int| seq![p@[x]]),
            seqs_view(res@) == singles + Seq::new(j as nat, |x: int| p@.take(x + 2)),
        decreases n - j,
    {
        let t = prefix_of(p, j + 2);
        proof {
            lemma_seqs_push(res@, t);
        }
        res.push(t);
        assert(seqs_view(res@) =~= singles + Seq::new((j + 1) as nat, |x: int| p@.take(x + 2)));
        j = j + 1;
    }
    assert(seqs_view(res@) =~= via_candidates(p@));
    res
}

fn path_eq(a: &Vec<usize>, b: &Vec<usize>) -> (res: bool)
    ensures
        res == (a@ == b@),
{
    if a.len() != b.len() {
        return false;
    }
    let mut k: usize = 0;
    while k < a.len()
        invariant
            a@.len() == b@.len(),
            k <= a@.len(),
            forall|j: int| 0 <= j < k ==> a@[j] == b@[j],
        decreases a@.len() - k,
    {
        if a[k] != b[k] {
            return false;
        }
        k = k + 1;
    }
    assert(a@ =~= b@);
    true
}

fn contains_path(cs: &Vec<Vec<usize>>, x: &Vec<usize>, upto: usize) -> (res: bool)
    requires
        upto <= cs@.len(),
    ensures
        res == exists|j: int| 0 <= j < upto && #[trigger] seqs_view(cs@)[j] == x@,
{
    let ghost cv = seqs_view(cs@);
    let mut j: usize = 0;
    while j < upto
        invariant
            cv == seqs_view(cs@),
            j <= upto <= cs@.len(),
            forall|y: int| 0 <= y < j ==> cv[y] != x@,
        decreases upto - j,
    {
        if path_eq(&cs[j], x) {
            assert(cv[j as int] == x@);
            return true;
        }
        j = j + 1;
    }
    false
}

fn dedup_paths(cs: &Vec<Vec<usize>>) -> (res: Vec<Vec<usize>>)
    ensures
        seqs_view(res@) == first_occurrences(seqs_view(cs@), cs@.len() as nat),
{
    let ghost cv = seqs_view(cs@);
    let mut res: Vec<Vec<usize>> = Vec::new();
    let mut k: usize = 0;
    while k < cs.len()
        invariant
            cv == seqs_view(cs@),
            k <= cs@.len(),
            seqs_view(res@) == first_occurrences(cv, k as nat),
        decreases cs@.len() - k,
    {
        if !contains_path(cs, &cs[k], k) {
            res.push(copy_vec(&cs[k]));
        }
        proof {
            assert(cv[k as int] == cs@[k as int]@);
            assert(((k + 1) - 1) as usize == k);
            assert(seqs_view(res@) =~= first_occurrences(cv, (k + 1) as nat));
        }
        k = k + 1;
    }
    res
}

fn only_in_exec(vs: &Vec<Vec<usize>>, i: usize, c: &Vec<usize>) -> (res: bool)
    requires
        i < vs@.len(),
    ensures
        res == only_in(seqs_view(vs@), i as int, c@),
{
    let ghost vv = seqs_view(vs@);
    let mut j: usize = 0;
    while j < vs.len()
        invariant
            vv == seqs_view(vs@),
            j <= vs@.len(),
            forall|x: int| 0 <= x < j && x != i ==> !via_candidates(#[trigger] vv[x]).contains(c@),
        decreases vs@.len() - j,
    {
        if j != i {
            let cands = via_candidates_of(&vs[j]);
            assert(vv[j as int] == vs@[j as int]@);
            if contains_path(&cands, c, cands.len()) {
                proof {
                    let w = choose|y: int| 0 <= y < cands@.len() && #[trigger] seqs_view(cands@)[y] == c@;
                    assert(via_candidates(vv[j as int])[w] == c@);
                }
                return false;
            }
            proof {
                if via_candidates(vv[j as int]).contains(c@) {
                    let w = choose|y: int| 0 <= y < via_candidates(vv[j as int]).len() && via_candidates(vv[j as int])[y] == c@;
                    assert(seqs_view(cands@)[w] == c@);
                }
            }
        }
        j = j + 1;
    }
    true
}

/// The `as_base_via` views of class `start` (see `via_views_upto`).
pub fn base_via_views(edges: &[Vec<BaseEdge>], start: usize) -> (res: Vec<BaseViaView>)
    requires
        well_formed(edge_graph(edges@)),
        acyclic(edge_graph(edges@)),
        start < edges@.len(),
    ensures
        via_view_seq(res@) == via_views_upto(subobjects(edges@, start), subobjects(edges@, start).len()),
{
    let views = subobject_views(edges, start);
    let ghost s = views_view(views@);
    let mut res: Vec<BaseViaView> = Vec::new();
    let mut k: usize = 0;
    while k < views.len()
        invariant
            s == views_view(views@),
            k <= views@.len(),
            via_view_seq(res@) == via_views_upto(s, k as nat),
        decreases views@.len() - k,
    {
        let ghost before = via_view_seq(res@);
        let cls = views[k].class_index;
        let mut first = true;
        let mut unique = true;
        let mut j: usize = 0;
        while j < views.len()
            invariant
                s == views_view(views@),
                k < views@.len(),
                cls == s[k as int].0,
                j <= views@.len(),
                first == !exists|x: int| 0 <= x < j && x < k && (#[trigger] s[x]).0 == cls,
                unique == forall|x: int| 0 <= x < j && x != k ==> (#[trigger] s[x]).0 != cls,
            decreases views@.len() - j,
        {
            if views[j].class_index == cls {
                assert(s[j as int].0 == cls);
                if j < k {
                    first = false;
                }
                if j != k {
                    unique = false;
                }
            }
            j = j + 1;
        }
        assert(first == !class_before(s, k as int));
        assert(unique == unique_class(s, k as int));
        if first && !unique {
            let mut chains: Vec<Vec<usize>> = Vec::new();
            let mut x: usize = 0;
            while x < views.len()
                invariant
                    s == views_view(views@),
                    x <= views@.len(),
                    seqs_view(chains@) == chains_of_class(s, cls, x as nat),
                decreases views@.len() - x,
            {
                if views[x].class_index == cls {
                    chains.push(copy_vec(&views[x].path));
                }
                proof {
                    assert(((x + 1) - 1) as usize == x);
                    assert(seqs_view(chains@) =~= chains_of_class(s, cls, (x + 1) as nat));
                }
                x = x + 1;
            }
            let ghost vs = seqs_view(chains@);
            let ghost mid = via_view_seq(res@);
            let mut i: usize = 0;
            while i < chains.len()
                invariant
                    vs == seqs_view(chains@),
                    i <= chains@.len(),
                    via_view_seq(res@) == mid + group_via_views(cls, vs, i as nat),
                decreases chains@.len() - i,
            {
                let cands = via_candidates_of(&chains[i]);
                let names = dedup_paths(&cands);
                let ghost nv = seqs_view(names@);
                assert(vs[i as int] == chains@[i as int]@);
                assert(nv == first_occurrences(via_candidates(vs[i as int]), via_candidates(vs[i as int]).len()));
                let ghost inner_start = via_view_seq(res@);
                let mut q: usize = 0;
                while q < names.len()
                    invariant
                        vs == seqs_view(chains@),
                        nv == seqs_view(names@),
                        i < chains@.len(),
                        q <= names@.len(),
                        via_view_seq(res@) == inner_start + names_of_chain(cls, vs, i as int, nv, q as nat),
                    decreases names@.len() - q,
                {
                    assert(nv[q as int] == names@[q as int]@);
                    assert(vs[i as int] == chains@[i as int]@);
                    if only_in_exec(&chains, i, &names[q]) {
                        let v = BaseViaView { class_index: cls, path: copy_vec(&chains[i]), via: copy_vec(&names[q]) };
                        proof {
                            lemma_via_push(res@, v);
                        }
                        res.push(v);
                    }
                    proof {
                        assert(((q + 1) - 1) as usize == q);
                        assert(via_view_seq(res@) =~= inner_start + names_of_chain(cls, vs, i as int, nv, (q + 1) as nat));
                    }
                    q = q + 1;
                }
                proof {
                    assert(((i + 1) - 1) as usize == i);
                    assert(via_view_seq(res@) =~= mid + group_via_views(cls, vs, (i + 1) as nat));
                }
                i = i + 1;
            }
        }
        proof {
            assert(((k + 1) - 1) as usize == k);
            assert(via_view_seq(res@) =~= via_views_upto(s, (k + 1) as nat));
        }
        k = k + 1;
    }
    res
}

/// Chain `p` from `start` ends with a virtual edge to `target`.
pub open spec fn ends_virtually_at(edges: Seq<Vec<BaseEdge>>, start: usize, p: Seq<usize>, target: usize) -> bool {
    p.len() > 0 && p.last() == target && edge_is_virtual(edges, path_end(start, p.drop_last()), target)
}

/// The first `k` chains of `ps` that end with a virtual edge to `target`.
pub open spec fn virtual_chains_upto(
    edges: Seq<Vec<BaseEdge>>,
    start: usize,
    target: usize,
    ps: Seq<Seq<usize>>,
    k: nat,
) -> Seq<Seq<usize>>
    decreases k,
{
    if k == 0 {
        Seq::empty()
    } else {
        let prev = virtual_chains_upto(edges, start, target, ps, (k - 1) as nat);
        if ends_virtually_at(edges, start, ps[k - 1], target) {
            prev.push(ps[k - 1])
        } else {
            prev
        }
    }
}

/// The chains of bases from `start`, in depth-first order, that reach `target`
/// over a virtual edge: one per way in which `target` is a virtual base of
/// `start`, as a constructor initializer of `target` may mean it.
pub fn virtual_base_chains(edges: &[Vec<BaseEdge>], start: usize, target: usize) -> (res: Vec<Vec<usize>>)
    requires
        well_formed(edge_graph(edges@)),
        acyclic(edge_graph(edges@)),
        start < edges@.len(),
    ensures
        seqs_view(res@) == virtual_chains_upto(
            edges@,
            start,
            target,
            all_base_paths(edge_graph(edges@), start),
            all_base_paths(edge_graph(edges@), start).len(),
        ),
{
    let ps = base_paths(edges, start);
    let ghost pv = seqs_view(ps@);
    let mut res: Vec<Vec<usize>> = Vec::new();
    let mut k: usize = 0;
    while k < ps.len()
        invariant
            pv == seqs_view(ps@),
            k <= ps@.len(),
            seqs_view(res@) == virtual_chains_upto(edges@, start, target, pv, k as nat),
        decreases ps@.len() - k,
    {
        let p = &ps[k];
        assert(pv[k as int] == p@);
        let n = p.len();
        if n > 0 && p[n - 1] == target {
            let from = if n >= 2 {
                p[n - 2]
            } else {
                start
            };
            assert(path_end(start, p@.drop_last()) == from);
            let is_virtual = if from < edges.len() {
                match find_edge(&edges[from], target) {
                    Some(e) => e.is_virtual,
                    None => false,
                }
            } else {
                false
            };
            if is_virtual {
                let c = copy_vec(p);
                proof {
                    lemma_seqs_push(res@, c);
                }
                res.push(c);
            }
        }
        proof {
            assert(((k + 1) - 1) as usize == k);
            assert(seqs_view(res@) =~= virtual_chains_upto(edges@, start, target, pv, (k + 1) as nat));
        }
        k = k + 1;
    }
    res
}

/// The type that the last edge of chain `p` from `start` inherits its class as:
/// the specialization of a virtual base that the chain reaches.
pub open spec fn chain_type(edges: Seq<Vec<BaseEdge>>, start: usize, p: Seq<usize>) -> usize {
    let from = path_end(start, p.drop_last());
    if from < edges.len() {
        match first_edge_to(edges[from as int]@, p.last()) {
            Some(e) => e.type_id,
            None => 0,
        }
    } else {
        0
    }
}

/// The types under which `target` is a virtual base of `start`, one per chain of
/// `virtual_base_chains`, in the same order.
pub open spec fn virtual_base_type_list(edges: Seq<Vec<BaseEdge>>, start: usize, target: usize) -> Seq<usize> {
    let ps = all_base_paths(edge_graph(edges), start);
    virtual_chains_upto(edges, start, target, ps, ps.len()).map_values(|p: Seq<usize>| chain_type(edges, start, p))
}

/// The types under which `target` is a virtual base of `start` (see
/// `virtual_base_type_list`).
pub fn virtual_base_types(edges: &[Vec<BaseEdge>], start: usize, target: usize) -> (res: Vec<usize>)
    requires
        well_formed(edge_graph(edges@)),
        acyclic(edge_graph(edges@)),
        start < edges@.len(),
    ensures
        res@ == virtual_base_type_list(edges@, start, target),
{
    let chains = virtual_base_chains(edges, start, target);
    let ghost cv = seqs_view(chains@);
    let ghost ps = all_base_paths(edge_graph(edges@), start);
    proof {
        lemma_virtual_chains_end(edges@, start, target, ps, ps.len());
    }
    let mut res: Vec<usize> = Vec::new();
    let mut k: usize = 0;
    while k < chains.len()
        invariant
            cv == seqs_view(chains@),
            cv == virtual_chains_upto(edges@, start, target, ps, ps.len()),
            forall|j: int| 0 <= j < cv.len() ==> #[trigger] ends_virtually_at(edges@, start, cv[j], target),
            k <= chains@.len(),
            res@ == cv.take(k as int).map_values(|p: Seq<usize>| chain_type(edges@, start, p)),
        decreases chains@.len() - k,
    {
        let p = &chains[k];
        assert(cv[k as int] == p@);
        assert(ends_virtually_at(edges@, start, p@, target));
        let n = p.len();
        let from = if n >= 2 {
            p[n - 2]
        } else {
            start
        };
        assert(path_end(start, p@.drop_last()) == from);
        let e = find_edge(&edges[from], target);
        let t = match e {
            Some(e) => e.type_id,
            None => 0,
        };
        res.push(t);
        proof {
            assert(p@.last() == target);
            assert(cv.take(k + 1) =~= cv.take(k as int).push(cv[k as int]));
            assert(res@ =~= cv.take(k + 1).map_values(|p: Seq<usize>| chain_type(edges@, start, p)));
        }
        k = k + 1;
    }
    assert(cv.take(cv.len() as int) =~= cv);
    res
}

proof fn lemma_virtual_chains_end(
    edges: Seq<Vec<BaseEdge>>,
    start: usize,
    target: usize,
    ps: Seq<Seq<usize>>,
    k: nat,
)
    requires
        k <= ps.len(),
    ensures
        forall|j: int|
            0 <= j < virtual_chains_upto(edges, start, target, ps, k).len() ==> #[trigger] ends_virtually_at(
                edges,
                start,
                virtual_chains_upto(edges, start, target, ps, k)[j],
                target,
            ),
    decreases k,
{
    if k > 0 {
        lemma_virtual_chains_end(edges, start, target, ps, (k - 1) as nat);
        let prev = virtual_chains_upto(edges, start, target, ps, (k - 1) as nat);
        let cur = virtual_chains_upto(edges, start, target, ps, k);
        assert forall|j: int| 0 <= j < cur.len() implies #[trigger] ends_virtually_at(edges, start, cur[j], target) by {
            if j < prev.len() {
                assert(cur[j] == prev[j]);
            }
        }
    }
}

/// The subobjects of the first `k` classes, each with its class: the numbering of
/// all subobjects of a block.
pub open spec fn subobject_entries(edges: Seq<Vec<BaseEdge>>, k: nat) -> Seq<(usize, Seq<usize>)>
    decreases k,
{
    if k == 0 {
        Seq::empty()
    } else {
        let c = (k - 1) as usize;
        subobject_entries(edges, (k - 1) as nat) + subobjects(edges, c).map_values(
            |e: (usize, Seq<usize>)| (c, e.1),
        )
    }
}

/// Entry `j` of `entries` is the subobject of class `complete` stored as `st`.
pub open spec fn entry_matches(
    edges: Seq<Vec<BaseEdge>>,
    entries: Seq<(usize, Seq<usize>)>,
    j: int,
    complete: usize,
    st: (Option<usize>, Seq<usize>),
) -> bool {
    entries[j].0 == complete && storage(edges, complete, entries[j].1) == st
}

/// The first entry from index `j` on that is the subobject of `complete` stored as
/// `st`.
pub open spec fn first_match(
    edges: Seq<Vec<BaseEdge>>,
    entries: Seq<(usize, Seq<usize>)>,
    complete: usize,
    st: (Option<usize>, Seq<usize>),
    j: nat,
) -> Option<usize>
    decreases entries.len() - j,
{
    if j >= entries.len() {
        None
    } else if entry_matches(edges, entries, j as int, complete, st) {
        Some(j as usize)
    } else {
        first_match(edges, entries, complete, st, j + 1)
    }
}

/// The number of the subobject of class `complete` at chain `path`: its position
/// in the numbering of all subobjects of the block; `None` when no subobject of
/// `complete` is stored where `path` leads.
pub open spec fn subobject_rank(edges: Seq<Vec<BaseEdge>>, complete: usize, path: Seq<usize>) -> Option<usize> {
    first_match(
        edges,
        subobject_entries(edges, edges.len()),
        complete,
        storage(edges, complete, path),
        0,
    )
}

proof fn lemma_first_match_is_match(
    edges: Seq<Vec<BaseEdge>>,
    entries: Seq<(usize, Seq<usize>)>,
    complete: usize,
    st: (Option<usize>, Seq<usize>),
    j: nat,
)
    requires
        entries.len() <= usize::MAX,
    ensures
        first_match(edges, entries, complete, st, j) matches Some(r) ==> j <= r < entries.len()
            && entry_matches(edges, entries, r as int, complete, st),
        (exists|m: int| j <= m < entries.len() && #[trigger] entry_matches(edges, entries, m, complete, st))
            ==> first_match(edges, entries, complete, st, j) is Some,
    decreases entries.len() - j,
{
    if j < entries.len() {
        lemma_first_match_is_match(edges, entries, complete, st, j + 1);
        if entry_matches(edges, entries, j as int, complete, st) {
            assert(first_match(edges, entries, complete, st, j) == Some(j as usize));
        } else {
            assert(first_match(edges, entries, complete, st, j) == first_match(edges, entries, complete, st, j + 1));
            if exists|m: int| j <= m < entries.len() && #[trigger] entry_matches(edges, entries, m, complete, st) {
                let m = choose|m: int| j <= m < entries.len() && #[trigger] entry_matches(edges, entries, m, complete, st);
                assert(j + 1 <= m);
            }
        }
    }
}

/// Subobject numbers identify subobjects: two chains get the same number exactly
/// when they are chains of the same class that lead to the same storage.
pub proof fn lemma_subobject_rank_identifies(
    edges: Seq<Vec<BaseEdge>>,
    c1: usize,
    p1: Seq<usize>,
    c2: usize,
    p2: Seq<usize>,
)
    requires
        subobject_rank(edges, c1, p1) is Some,
        subobject_entries(edges, edges.len()).len() <= usize::MAX,
    ensures
        subobject_rank(edges, c1, p1) == subobject_rank(edges, c2, p2) <==> (c1 == c2 && storage(edges, c1, p1)
            == storage(edges, c2, p2)),
{
    let entries = subobject_entries(edges, edges.len());
    lemma_first_match_is_match(edges, entries, c1, storage(edges, c1, p1), 0);
    lemma_first_match_is_match(edges, entries, c2, storage(edges, c2, p2), 0);
}

proof fn lemma_entries_hold(edges: Seq<Vec<BaseEdge>>, k: nat, complete: usize, t: int)
    requires
        complete < k,
        0 <= t < subobjects(edges, complete).len(),
    ensures
        exists|m: int|
            0 <= m < subobject_entries(edges, k).len() && #[trigger] subobject_entries(edges, k)[m] == (
                complete,
                subobjects(edges, complete)[t].1,
            ),
    decreases k,
{
    let prev = subobject_entries(edges, (k - 1) as nat);
    let c = (k - 1) as usize;
    let block = subobjects(edges, c).map_values(|e: (usize, Seq<usize>)| (c, e.1));
    assert(subobject_entries(edges, k) == prev + block);
    if complete == c {
        let m = prev.len() + t;
        assert(subobject_entries(edges, k)[m] == block[t]);
    } else {
        lemma_entries_hold(edges, (k - 1) as nat, complete, t);
        let m = choose|m: int|
            0 <= m < prev.len() && #[trigger] prev[m] == (complete, subobjects(edges, complete)[t].1);
        assert(subobject_entries(edges, k)[m] == prev[m]);
    }
}

/// Every subobject of a class has a number.
pub proof fn lemma_every_subobject_numbered(edges: Seq<Vec<BaseEdge>>, complete: usize, t: int)
    requires
        complete < edges.len(),
        0 <= t < subobjects(edges, complete).len(),
        subobject_entries(edges, edges.len()).len() <= usize::MAX,
    ensures
        subobject_rank(edges, complete, subobjects(edges, complete)[t].1) is Some,
{
    let entries = subobject_entries(edges, edges.len());
    let p = subobjects(edges, complete)[t].1;
    lemma_entries_hold(edges, edges.len(), complete, t);
    let m = choose|m: int| 0 <= m < entries.len() && #[trigger] entries[m] == (complete, p);
    assert(entry_matches(edges, entries, m, complete, storage(edges, complete, p)));
    lemma_first_match_is_match(edges, entries, complete, storage(edges, complete, p), 0);
}

pub open spec fn entries_view(v: Seq<(usize, Vec<usize>)>) -> Seq<(usize, Seq<usize>)> {
    v.map_values(|e: (usize, Vec<usize>)| (e.0, e.1@))
}

proof fn lemma_entries_push(a: Seq<(usize, Vec<usize>)>, x: (usize, Vec<usize>))
    ensures
        entries_view(a.push(x)) == entries_view(a).push((x.0, x.1@)),
{
    assert(entries_view(a.push(x)) =~= entries_view(a).push((x.0, x.1@)));
}

/// All subobjects of the block, numbered (see `subobject_entries`).
fn numbered_subobjects(edges: &[Vec<BaseEdge>]) -> (res: Vec<(usize, Vec<usize>)>)
    requires
        well_formed(edge_graph(edges@)),
        acyclic(edge_graph(edges@)),
    ensures
        entries_view(res@) == subobject_entries(edges@, edges@.len() as nat),
{
    let mut res: Vec<(usize, Vec<usize>)> = Vec::new();
    let mut c: usize = 0;
    while c < edges.len()
        invariant
            well_formed(edge_graph(edges@)),
            acyclic(edge_graph(edges@)),
            c <= edges@.len(),
            entries_view(res@) == subobject_entries(edges@, c as nat),
        decreases edges@.len() - c,
    {
        let views = subobject_views(edges, c);
        let ghost s = views_view(views@);
        let ghost before = entries_view(res@);
        let ghost block = s.map_values(|e: (usize, Seq<usize>)| (c, e.1));
        let mut k: usize = 0;
        while k < views.len()
            invariant
                s == views_view(views@),
                block == s.map_values(|e: (usize, Seq<usize>)| (c, e.1)),
                k <= views@.len(),
                entries_view(res@) == before + block.take(k as int),
            decreases views@.len() - k,
        {
            let x = (c, copy_vec(&views[k].path));
            proof {
                lemma_entries_push(res@, x);
                assert(block[k as int] == (c, views@[k as int].path@));
                assert(block.take(k + 1) =~= block.take(k as int).push(block[k as int]));
            }
            res.push(x);
            k = k + 1;
        }
        proof {
            assert(block.take(block.len() as int) =~= block);
            assert(((c + 1) - 1) as usize == c);
        }
        c = c + 1;
    }
    res
}

/// The number of a subobject (see `subobject_rank`).
pub fn subobject_id(edges: &[Vec<BaseEdge>], complete: usize, path: &Vec<usize>) -> (res: Option<usize>)
    requires
        well_formed(edge_graph(edges@)),
        acyclic(edge_graph(edges@)),
    ensures
        res == subobject_rank(edges@, complete, path@),
{
    let entries = numbered_subobjects(edges);
    let ghost all = entries_view(entries@);
    let target = storage_of(edges, complete, path);
    let ghost st = storage(edges@, complete, path@);
    let mut j: usize = 0;
    while j < entries.len()
        invariant
            all == entries_view(entries@),
            all == subobject_entries(edges@, edges@.len() as nat),
            st == storage(edges@, complete, path@),
            (target.0, target.1@) == st,
            j <= entries@.len(),
            first_match(edges@, all, complete, st, 0) == first_match(edges@, all, complete, st, j as nat),
        decreases entries@.len() - j,
    {
        assert(all[j as int] == (entries@[j as int].0, entries@[j as int].1@));
        if entries[j].0 == complete {
            let here = storage_of(edges, complete, &entries[j].1);
            if same_storage(&here, &target) {
                assert(entry_matches(edges@, all, j as int, complete, st));
                assert(first_match(edges@, all, complete, st, j as nat) == Some(j));
                assert(subobject_rank(edges@, complete, path@) == first_match(edges@, all, complete, st, 0));
                return Some(j);
            }
        }
        assert(!entry_matches(edges@, all, j as int, complete, st));
        j = j + 1;
    }
    None
}

/// `keys` followed by each key of `new` that is not listed yet, in order.
pub open spec fn add_keys(keys: Seq<(usize, usize)>, new: Seq<(usize, usize)>) -> Seq<(usize, usize)>
    decreases new.len(),
{
    if new.len() == 0 {
        keys
    } else {
        let prev = add_keys(keys, new.drop_last());
        if prev.contains(new.last()) {
            prev
        } else {
            prev.push(new.last())
        }
    }
}

/// The cast target of the subobject at the end of chain `p` from `start`: its
/// class and the type it is inherited as.
pub open spec fn path_key(edges: Seq<Vec<BaseEdge>>, start: usize, p: Seq<usize>) -> (usize, usize) {
    if p.len() == 0 {
        (0, 0)
    } else {
        (p.last(), chain_type(edges, start, p))
    }
}

/// The cast targets that the nonempty chains of the first `k` classes reach, class
/// by class in depth-first order.
pub open spec fn reached_keys(edges: Seq<Vec<BaseEdge>>, k: nat) -> Seq<(usize, usize)>
    decreases k,
{
    if k == 0 {
        Seq::empty()
    } else {
        let start = (k - 1) as usize;
        reached_keys(edges, (k - 1) as nat) + all_base_paths(edge_graph(edges), start).drop_first().map_values(
            |p: Seq<usize>| path_key(edges, start, p),
        )
    }
}

/// The cast targets of a block, numbered by position: first each class as its own
/// type (`class_types[c]`), so that class `c` has number `c`, then each ancestor
/// type a chain reaches that is not numbered yet.
pub open spec fn cast_target_keys(edges: Seq<Vec<BaseEdge>>, class_types: Seq<usize>) -> Seq<(usize, usize)> {
    add_keys(
        Seq::new(class_types.len(), |i: int| (i as usize, class_types[i])),
        reached_keys(edges, edges.len()),
    )
}

fn path_key_of(edges: &[Vec<BaseEdge>], start: usize, p: &Vec<usize>) -> (res: (usize, usize))
    ensures
        res == path_key(edges@, start, p@),
{
    let n = p.len();
    if n == 0 {
        return (0, 0);
    }
    let last = p[n - 1];
    let from = if n >= 2 {
        p[n - 2]
    } else {
        start
    };
    assert(path_end(start, p@.drop_last()) == from);
    assert(p@.last() == last);
    let t = if from < edges.len() {
        match find_edge(&edges[from], last) {
            Some(e) => e.type_id,
            None => 0,
        }
    } else {
        0
    };
    (last, t)
}

fn add_key(keys: &mut Vec<(usize, usize)>, key: (usize, usize))
    ensures
        final(keys)@ == if old(keys)@.contains(key) {
            old(keys)@
        } else {
            old(keys)@.push(key)
        },
{
    let mut j: usize = 0;
    while j < keys.len()
        invariant
            j <= keys@.len(),
            keys@ == old(keys)@,
            forall|x: int| 0 <= x < j ==> keys@[x] != key,
        decreases keys@.len() - j,
    {
        if keys[j].0 == key.0 && keys[j].1 == key.1 {
            assert(keys@[j as int] == key);
            return;
        }
        j = j + 1;
    }
    keys.push(key);
}

/// The numbered cast targets of a block (see `cast_target_keys`).
pub fn build_cast_target_ids(edges: &[Vec<BaseEdge>], class_types: &[usize]) -> (res: Vec<(usize, usize)>)
    requires
        well_formed(edge_graph(edges@)),
        acyclic(edge_graph(edges@)),
    ensures
        res@ == cast_target_keys(edges@, class_types@),
{
    let ghost own = Seq::new(class_types@.len(), |i: int| (i as usize, class_types@[i]));
    let mut keys: Vec<(usize, usize)> = Vec::new();
    let mut i: usize = 0;
    while i < class_types.len()
        invariant
            i <= class_types@.len(),
            keys@ == own.take(i as int),
            own == Seq::new(class_types@.len(), |i: int| (i as usize, class_types@[i])),
        decreases class_types@.len() - i,
    {
        keys.push((i, class_types[i]));
        assert(own.take(i + 1) =~= own.take(i as int).push(own[i as int]));
        i = i + 1;
    }
    assert(own.take(own.len() as int) =~= own);
    let mut start: usize = 0;
    while start < edges.len()
        invariant
            well_formed(edge_graph(edges@)),
            acyclic(edge_graph(edges@)),
            start <= edges@.len(),
            keys@ == add_keys(own, reached_keys(edges@, start as nat)),
        decreases edges@.len() - start,
    {
        let ps = base_paths(edges, start);
        let ghost pv = seqs_view(ps@);
        let ghost r = reached_keys(edges@, start as nat);
        let ghost pk = pv.drop_first().map_values(|p: Seq<usize>| path_key(edges@, start, p));
        assert(pk.take(0) =~= Seq::<(usize, usize)>::empty());
        assert(r + pk.take(0) =~= r);
        let mut k: usize = 1;
        while k < ps.len()
            invariant
                pv == seqs_view(ps@),
                pk == pv.drop_first().map_values(|p: Seq<usize>| path_key(edges@, start, p)),
                1 <= k <= ps@.len(),
                keys@ == add_keys(own, r + pk.take(k - 1)),
            decreases ps@.len() - k,
        {
            let key = path_key_of(edges, start, &ps[k]);
            let ghost a = r + pk.take(k - 1);
            proof {
                assert(pv[k as int] == ps@[k as int]@);
                assert(pk[k - 1] == path_key(edges@, start, pv[k as int]));
                assert(r + pk.take(k as int) =~= a.push(pk[k - 1]));
                assert(a.push(pk[k - 1]).drop_last() =~= a);
            }
            add_key(&mut keys, key);
            k = k + 1;
        }
        proof {
            assert(pk.take(ps@.len() - 1) =~= pk);
            assert(reached_keys(edges@, (start + 1) as nat) == r + pk);
        }
        start = start + 1;
    }
    keys
}

/// Where an owned value of class `source` reaches the base named by the chain `via`
/// after it: the complete class, the number of the source subobject, and the chain
/// from the complete class to the base.
pub struct BaseViaCandidate {
    pub complete: usize,
    pub source_id: Option<usize>,
    pub path: Vec<usize>,
}

pub open spec fn via_candidates_view(cs: Seq<BaseViaCandidate>) -> Seq<(usize, Option<usize>, Seq<usize>)> {
    cs.map_values(|c: BaseViaCandidate| (c.complete, c.source_id, c.path@))
}

/// The candidates that class `complete` gives from the first `k` of its subobjects
/// `s`: each subobject of class `source`, followed by `via`.
pub open spec fn class_via_candidates(
    edges: Seq<Vec<BaseEdge>>,
    complete: usize,
    source: usize,
    via: Seq<usize>,
    s: Seq<(usize, Seq<usize>)>,
    k: nat,
) -> Seq<(usize, Option<usize>, Seq<usize>)>
    decreases k,
{
    if k == 0 {
        Seq::empty()
    } else {
        let prev = class_via_candidates(edges, complete, source, via, s, (k - 1) as nat);
        if s[k - 1].0 == source {
            prev.push((complete, subobject_rank(edges, complete, s[k - 1].1), s[k - 1].1 + via))
        } else {
            prev
        }
    }
}

/// The candidates of the first `c` classes: the concrete classes whose order lists
/// `source`, each with its own candidates.
pub open spec fn base_via_candidates(
    edges: Seq<Vec<BaseEdge>>,
    is_abstract: Seq<bool>,
    mros: Seq<Seq<usize>>,
    source: usize,
    via: Seq<usize>,
    c: nat,
) -> Seq<(usize, Option<usize>, Seq<usize>)>
    decreases c,
{
    if c == 0 {
        Seq::empty()
    } else {
        let k = (c - 1) as usize;
        let prev = base_via_candidates(edges, is_abstract, mros, source, via, (c - 1) as nat);
        if !is_abstract[k as int] && mros[k as int].contains(source) {
            prev + class_via_candidates(edges, k, source, via, subobjects(edges, k), subobjects(edges, k).len())
        } else {
            prev
        }
    }
}

/// The candidates of an owned `into_base_via` from `source` through `via_path`
/// (see `base_via_candidates`).
pub fn owned_base_via_candidates(
    is_abstract: &[bool],
    mros: &[Vec<usize>],
    edges: &[Vec<BaseEdge>],
    source: usize,
    via_path: &Vec<usize>,
) -> (res: Vec<BaseViaCandidate>)
    requires
        well_formed(edge_graph(edges@)),
        acyclic(edge_graph(edges@)),
        is_abstract@.len() == edges@.len(),
        mros@.len() == edges@.len(),
    ensures
        via_candidates_view(res@) == base_via_candidates(
            edges@,
            is_abstract@,
            seqs_view(mros@),
            source,
            via_path@,
            edges@.len() as nat,
        ),
{
    let ghost mv = seqs_view(mros@);
    let mut res: Vec<BaseViaCandidate> = Vec::new();
    let mut c: usize = 0;
    while c < edges.len()
        invariant
            mv == seqs_view(mros@),
            well_formed(edge_graph(edges@)),
            acyclic(edge_graph(edges@)),
            is_abstract@.len() == edges@.len(),
            mros@.len() == edges@.len(),
            c <= edges@.len(),
            via_candidates_view(res@) == base_via_candidates(edges@, is_abstract@, mv, source, via_path@, c as nat),
        decreases edges@.len() - c,
    {
        let ghost before = via_candidates_view(res@);
        assert(mv[c as int] == mros@[c as int]@);
        if !is_abstract[c] && vec_contains(&mros[c], source) {
            let views = subobject_views(edges, c);
            let ghost s = views_view(views@);
            let mut k: usize = 0;
            while k < views.len()
                invariant
                    well_formed(edge_graph(edges@)),
                    acyclic(edge_graph(edges@)),
                    s == views_view(views@),
                    k <= views@.len(),
                    via_candidates_view(res@) == before + class_via_candidates(edges@, c, source, via_path@, s, k as nat),
                decreases views@.len() - k,
            {
                assert(s[k as int] == (views@[k as int].class_index, views@[k as int].path@));
                let ghost prev = via_candidates_view(res@);
                if views[k].class_index == source {
                    let id = subobject_id(edges, c, &views[k].path);
                    let path = concat_path(&views[k].path, via_path);
                    let cand = BaseViaCandidate { complete: c, source_id: id, path };
                    res.push(cand);
                    assert(via_candidates_view(res@) =~= prev.push((c, id, s[k as int].1 + via_path@)));
                }
                proof {
                    assert(((k + 1) - 1) as usize == k);
                    assert(via_candidates_view(res@) =~= before + class_via_candidates(
                        edges@,
                        c,
                        source,
                        via_path@,
                        s,
                        (k + 1) as nat,
                    ));
                }
                k = k + 1;
            }
        }
        proof {
            assert(((c + 1) - 1) as usize == c);
            assert(via_candidates_view(res@) =~= base_via_candidates(edges@, is_abstract@, mv, source, via_path@, (c + 1) as nat));
        }
        c = c + 1;
    }
    res
}

} // verus!
