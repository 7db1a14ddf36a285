//! Types written in generic classes, and what they become once the generic
//! parameters are replaced by the arguments that an inheriting class gives them.
//!
//! A type is the list of its tokens. A token is either the `i`-th generic parameter
//! of the class the type is written in, or any other token, numbered by its text, so
//! that two types are the same written type exactly when their tokens are equal.

use vstd::prelude::*;

use crate::c3::{has_edge, is_path, seqs_view};

verus! {

#[derive(Clone, Copy, PartialEq, Eq, Structural, Debug)]
pub enum TypeToken {
    /// The generic parameter at this position among the class's parameters.
    Param(usize),
    /// Any other token, by the number of its text.
    Atom(usize),
}

pub open spec fn types_view(v: Seq<Vec<TypeToken>>) -> Seq<Seq<TypeToken>> {
    v.map_values(|t: Vec<TypeToken>| t@)
}

/// What one token becomes: a parameter with an argument becomes the argument's
/// tokens; a parameter without one, and every other token, stays.
pub open spec fn subst_token(t: TypeToken, subs: Seq<Seq<TypeToken>>) -> Seq<TypeToken> {
    match t {
        TypeToken::Param(i) => if (i as int) < subs.len() {
            subs[i as int]
        } else {
            seq![t]
        },
        TypeToken::Atom(_) => seq![t],
    }
}

/// Type `ty` with every parameter `i` replaced by `subs[i]`.
pub open spec fn subst(ty: Seq<TypeToken>, subs: Seq<Seq<TypeToken>>) -> Seq<TypeToken>
    decreases ty.len(),
{
    if ty.len() == 0 {
        Seq::empty()
    } else {
        subst(ty.drop_last(), subs) + subst_token(ty.last(), subs)
    }
}

/// Every parameter of `ty` has a position below `n`.
pub open spec fn params_below(ty: Seq<TypeToken>, n: nat) -> bool {
    forall|k: int| 0 <= k < ty.len() ==> match #[trigger] ty[k] {
        TypeToken::Param(i) => (i as int) < n,
        TypeToken::Atom(_) => true,
    }
}

fn append_tokens(res: &mut Vec<TypeToken>, more: &Vec<TypeToken>)
    ensures
        final(res)@ == old(res)@ + more@,
{
    let mut j: usize = 0;
    while j < more.len()
        invariant
            j <= more@.len(),
            res@ == old(res)@ + more@.take(j as int),
        decreases more@.len() - j,
    {
        res.push(more[j]);
        assert(more@.take(j + 1) =~= more@.take(j as int).push(more@[j as int]));
        j = j + 1;
    }
    assert(more@.take(more@.len() as int) =~= more@);
}

/// Type `ty` with its parameters replaced (see `subst`).
pub fn substitute(ty: &Vec<TypeToken>, subs: &Vec<Vec<TypeToken>>) -> (res: Vec<TypeToken>)
    ensures
        res@ == subst(ty@, types_view(subs@)),
{
    let ghost sv = types_view(subs@);
    let mut res: Vec<TypeToken> = Vec::new();
    let mut k: usize = 0;
    while k < ty.len()
        invariant
            sv == types_view(subs@),
            k <= ty@.len(),
            res@ == subst(ty@.take(k as int), sv),
        decreases ty@.len() - k,
    {
        let t = ty[k];
        match t {
            TypeToken::Param(i) => {
                if i < subs.len() {
                    append_tokens(&mut res, &subs[i]);
                } else {
                    res.push(t);
                }
            },
            TypeToken::Atom(_) => {
                res.push(t);
            },
        }
        proof {
            let next = ty@.take(k + 1);
            assert(next.drop_last() =~= ty@.take(k as int));
            assert(next.last() == t);
        }
        k = k + 1;
    }
    assert(ty@.take(ty@.len() as int) =~= ty@);
    res
}

proof fn lemma_subst_concat(a: Seq<TypeToken>, b: Seq<TypeToken>, subs: Seq<Seq<TypeToken>>)
    ensures
        subst(a + b, subs) == subst(a, subs) + subst(b, subs),
    decreases b.len(),
{
    if b.len() == 0 {
        assert(a + b =~= a);
        assert(subst(a, subs) + subst(b, subs) =~= subst(a, subs));
    } else {
        lemma_subst_concat(a, b.drop_last(), subs);
        assert((a + b).drop_last() =~= a + b.drop_last());
        assert((a + b).last() == b.last());
        assert(subst(a, subs) + subst(b.drop_last(), subs) + subst_token(b.last(), subs) =~= subst(a, subs) + (
        subst(b.drop_last(), subs) + subst_token(b.last(), subs)));
    }
}

/// Replacing nothing changes nothing.
pub proof fn lemma_subst_nothing(ty: Seq<TypeToken>)
    ensures
        subst(ty, Seq::empty()) == ty,
    decreases ty.len(),
{
    if ty.len() > 0 {
        lemma_subst_nothing(ty.drop_last());
        assert(ty.drop_last() + seq![ty.last()] =~= ty);
    }
}

/// Substituting twice is substituting once: first `s1`, then `s2`, is `s1` with
/// `s2` applied to its arguments, for a type whose parameters `s1` all binds.
pub proof fn lemma_subst_compose(ty: Seq<TypeToken>, s1: Seq<Seq<TypeToken>>, s2: Seq<Seq<TypeToken>>)
    requires
        params_below(ty, s1.len()),
    ensures
        subst(subst(ty, s1), s2) == subst(ty, s1.map_values(|a: Seq<TypeToken>| subst(a, s2))),
    decreases ty.len(),
{
    let comp = s1.map_values(|a: Seq<TypeToken>| subst(a, s2));
    if ty.len() > 0 {
        let rest = ty.drop_last();
        assert(params_below(rest, s1.len())) by {
            assert forall|k: int| 0 <= k < rest.len() implies match #[trigger] rest[k] {
                TypeToken::Param(i) => (i as int) < s1.len(),
                TypeToken::Atom(_) => true,
            } by {
                assert(rest[k] == ty[k]);
            }
        }
        lemma_subst_compose(rest, s1, s2);
        lemma_subst_concat(subst(rest, s1), subst_token(ty.last(), s1), s2);
        let t = ty.last();
        assert(ty[ty.len() - 1] == t);
        match t {
            TypeToken::Param(i) => {
                assert(subst_token(t, comp) == subst(s1[i as int], s2));
            },
            TypeToken::Atom(_) => {
                let one = seq![t];
                assert(one.drop_last() =~= Seq::<TypeToken>::empty());
                assert(one.last() == t);
                assert(subst(one.drop_last(), s2) == Seq::<TypeToken>::empty());
                assert(subst(one, s2) =~= one);
            },
        }
    }
}

// ---------------------------------------------------------------------------
// Arguments along chains of bases
// ---------------------------------------------------------------------------

/// The first position at or after `k` where `s` holds `x`.
pub open spec fn first_at(s: Seq<usize>, x: usize, k: nat) -> Option<int>
    decreases s.len() - k,
{
    if k >= s.len() {
        None
    } else if s[k as int] == x {
        Some(k as int)
    } else {
        first_at(s, x, k + 1)
    }
}

/// The view of the type arguments written on every base: `args[c][t][a]` is the
/// `a`-th argument given to the `t`-th direct base of class `c`.
pub open spec fn args_view(v: Seq<Vec<Vec<Vec<TypeToken>>>>) -> Seq<Seq<Seq<Seq<TypeToken>>>> {
    v.map_values(|c: Vec<Vec<Vec<TypeToken>>>| c@.map_values(|e: Vec<Vec<TypeToken>>| types_view(e@)))
}

/// The arguments written where class `from` names its base `to` (the first time it
/// does); none when it does not.
pub open spec fn edge_args(
    bases: Seq<Seq<usize>>,
    args: Seq<Seq<Seq<Seq<TypeToken>>>>,
    from: usize,
    to: usize,
) -> Seq<Seq<TypeToken>> {
    if from < bases.len() {
        match first_at(bases[from as int], to, 0) {
            Some(t) => args[from as int][t],
            None => Seq::empty(),
        }
    } else {
        Seq::empty()
    }
}

/// Each of the first `n` parameters, as itself.
pub open spec fn own_params(n: nat) -> Seq<Seq<TypeToken>> {
    Seq::new(n, |i: int| seq![TypeToken::Param(i as usize)])
}

/// The class a chain of bases from `start` ends at.
pub open spec fn chain_end(start: usize, p: Seq<usize>) -> usize {
    if p.len() == 0 {
        start
    } else {
        p.last()
    }
}

/// The arguments of the ancestor that chain `p` from `start` reaches, written in the
/// parameters of `start`: `start`'s own parameters for the empty chain; otherwise
/// the arguments written on the last base, with the arguments of the chain before it
/// put in for their parameters. `n_params[c]` is the number of parameters of `c`.
pub open spec fn chain_args(
    bases: Seq<Seq<usize>>,
    args: Seq<Seq<Seq<Seq<TypeToken>>>>,
    n_params: Seq<usize>,
    start: usize,
    p: Seq<usize>,
) -> Seq<Seq<TypeToken>>
    decreases p.len(),
{
    if p.len() == 0 {
        own_params(n_params[start as int] as nat)
    } else {
        let prev = chain_args(bases, args, n_params, start, p.drop_last());
        edge_args(bases, args, chain_end(start, p.drop_last()), p.last()).map_values(
            |a: Seq<TypeToken>| subst(a, prev),
        )
    }
}

/// Every base is given as many arguments as it has parameters, and every argument
/// uses only parameters of the class that writes it.
pub open spec fn args_well_formed(
    bases: Seq<Seq<usize>>,
    args: Seq<Seq<Seq<Seq<TypeToken>>>>,
    n_params: Seq<usize>,
) -> bool {
    &&& args.len() == bases.len()
    &&& n_params.len() == bases.len()
    &&& forall|c: int| 0 <= c < bases.len() ==> (#[trigger] args[c]).len() == bases[c].len()
    &&& forall|c: int, t: int|
        0 <= c < bases.len() && 0 <= t < bases[c].len() ==> {
            &&& bases[c][t] < bases.len()
            &&& (#[trigger] args[c][t]).len() == n_params[bases[c][t] as int]
            &&& forall|a: int| 0 <= a < args[c][t].len() ==> params_below(#[trigger] args[c][t][a], n_params[c] as nat)
        }
}

proof fn lemma_first_at(s: Seq<usize>, x: usize, k: nat)
    ensures
        first_at(s, x, k) matches Some(t) ==> k <= t < s.len() && s[t] == x,
        (exists|t: int| k <= t < s.len() && s[t] == x) ==> first_at(s, x, k) is Some,
    decreases s.len() - k,
{
    if k < s.len() {
        lemma_first_at(s, x, k + 1);
        if s[k as int] != x && exists|t: int| k <= t < s.len() && s[t] == x {
            let t = choose|t: int| k <= t < s.len() && s[t] == x;
            assert(k + 1 <= t);
        }
    }
}

/// The arguments an edge gives, for a base the class names.
proof fn lemma_edge_args(
    bases: Seq<Seq<usize>>,
    args: Seq<Seq<Seq<Seq<TypeToken>>>>,
    n_params: Seq<usize>,
    from: usize,
    to: usize,
)
    requires
        args_well_formed(bases, args, n_params),
        has_edge(bases, from, to),
    ensures
        to < bases.len(),
        edge_args(bases, args, from, to).len() == n_params[to as int],
        forall|a: int|
            0 <= a < edge_args(bases, args, from, to).len() ==> params_below(
                #[trigger] edge_args(bases, args, from, to)[a],
                n_params[from as int] as nat,
            ),
{
    lemma_first_at(bases[from as int], to, 0);
    let w = choose|w: int| 0 <= w < bases[from as int].len() && bases[from as int][w] == to;
    assert(exists|t: int| 0 <= t < bases[from as int].len() && bases[from as int][t] == to);
    let t = first_at(bases[from as int], to, 0)->0;
    assert(bases[from as int][t] == to);
    assert(args[from as int][t].len() == n_params[bases[from as int][t] as int]);
}

/// Chain `p` from `start` follows base edges.
pub open spec fn is_chain(bases: Seq<Seq<usize>>, start: usize, p: Seq<usize>) -> bool {
    is_path(bases, seq![start] + p)
}

proof fn lemma_chain_prefix(bases: Seq<Seq<usize>>, start: usize, p: Seq<usize>)
    requires
        p.len() >= 1,
        is_chain(bases, start, p),
    ensures
        is_chain(bases, start, p.drop_last()),
        has_edge(bases, chain_end(start, p.drop_last()), p.last()),
{
    let q = seq![start] + p;
    let r = seq![start] + p.drop_last();
    assert(r =~= q.drop_last());
    assert forall|k: int| 0 <= k < r.len() - 1 implies #[trigger] has_edge(bases, r[k], r[k + 1]) by {
        crate::c3::lemma_path_step(bases, q, k);
    }
    crate::c3::lemma_path_step(bases, q, q.len() - 2);
    if p.len() >= 2 {
        assert(q[q.len() - 2] == p[p.len() - 2]);
    }
}

/// The arguments along a chain are as many as the parameters of the class it ends
/// at.
proof fn lemma_chain_args_len(
    bases: Seq<Seq<usize>>,
    args: Seq<Seq<Seq<Seq<TypeToken>>>>,
    n_params: Seq<usize>,
    start: usize,
    p: Seq<usize>,
)
    requires
        args_well_formed(bases, args, n_params),
        start < bases.len(),
        is_chain(bases, start, p),
    ensures
        chain_end(start, p) < bases.len(),
        chain_args(bases, args, n_params, start, p).len() == n_params[chain_end(start, p) as int],
    decreases p.len(),
{
    if p.len() > 0 {
        lemma_chain_prefix(bases, start, p);
        lemma_chain_args_len(bases, args, n_params, start, p.drop_last());
        lemma_edge_args(bases, args, n_params, chain_end(start, p.drop_last()), p.last());
    }
}

proof fn lemma_chain_split(
    bases: Seq<Seq<usize>>,
    args: Seq<Seq<Seq<Seq<TypeToken>>>>,
    n_params: Seq<usize>,
    start: usize,
    p: Seq<usize>,
    q: Seq<usize>,
)
    requires
        args_well_formed(bases, args, n_params),
        start < bases.len(),
        is_chain(bases, start, p + q),
    ensures
        is_chain(bases, start, p),
        is_chain(bases, chain_end(start, p), q),
        chain_end(start, p) < bases.len(),
{
    let big = seq![start] + (p + q);
    let front = seq![start] + p;
    let back = seq![chain_end(start, p)] + q;
    assert forall|k: int| 0 <= k < front.len() - 1 implies #[trigger] has_edge(bases, front[k], front[k + 1]) by {
        crate::c3::lemma_path_step(bases, big, k);
        assert(big[k] == front[k] && big[k + 1] == front[k + 1]);
    }
    if p.len() > 0 {
        crate::c3::lemma_path_step(bases, big, p.len() - 1);
        assert(big[p.len() as int] == p.last());
        let from = big[p.len() - 1];
        let t = choose|t: int| 0 <= t < bases[from as int].len() && bases[from as int][t] == p.last();
        let ea = args[from as int][t];
        assert(bases[from as int][t] < bases.len());
    }
    assert forall|k: int| 0 <= k < back.len() - 1 implies #[trigger] has_edge(bases, back[k], back[k + 1]) by {
        crate::c3::lemma_path_step(bases, big, k + p.len());
        assert(big[k + p.len() + 1] == back[k + 1]);
        if k == 0 {
            if p.len() > 0 {
                assert(big[p.len() as int] == p.last());
            }
        } else {
            assert(big[k + p.len()] == back[k]);
        }
    }
}

/// An argument written with the parameters `ps` of a class, taken along with the
/// arguments `s` given to them, is the argument with `s` put in.
proof fn lemma_subst_own_params(a: Seq<TypeToken>, n: nat)
    requires
        params_below(a, n),
    ensures
        subst(a, own_params(n)) == a,
    decreases a.len(),
{
    if a.len() > 0 {
        let rest = a.drop_last();
        assert(params_below(rest, n)) by {
            assert forall|k: int| 0 <= k < rest.len() implies match #[trigger] rest[k] {
                TypeToken::Param(i) => (i as int) < n,
                TypeToken::Atom(_) => true,
            } by {
                assert(rest[k] == a[k]);
            }
        }
        lemma_subst_own_params(rest, n);
        assert(a[a.len() - 1] == a.last());
        assert(rest + subst_token(a.last(), own_params(n)) =~= a);
    }
}

/// Arguments compose along chains: the arguments of the ancestor that `p` followed
/// by `q` reaches are those that `q` gives from where `p` ends, with the arguments
/// of `p` put in for that class's parameters.
pub proof fn lemma_chain_args_compose(
    bases: Seq<Seq<usize>>,
    args: Seq<Seq<Seq<Seq<TypeToken>>>>,
    n_params: Seq<usize>,
    start: usize,
    p: Seq<usize>,
    q: Seq<usize>,
)
    requires
        args_well_formed(bases, args, n_params),
        start < bases.len(),
        is_chain(bases, start, p + q),
    ensures
        chain_args(bases, args, n_params, start, p + q) == chain_args(
            bases,
            args,
            n_params,
            chain_end(start, p),
            q,
        ).map_values(|a: Seq<TypeToken>| subst(a, chain_args(bases, args, n_params, start, p))),
    decreases q.len(),
{
    let pa = chain_args(bases, args, n_params, start, p);
    let e = chain_end(start, p);
    if q.len() == 0 {
        assert(p + q =~= p);
        assert(is_chain(bases, start, p));
        lemma_chain_args_len(bases, args, n_params, start, p);
        let own = own_params(n_params[e as int] as nat);
        assert forall|i: int| 0 <= i < own.len() implies #[trigger] subst(own[i], pa) == pa[i] by {
            let one = own[i];
            assert(one.drop_last() =~= Seq::<TypeToken>::empty());
            assert(subst(one.drop_last(), pa) == Seq::<TypeToken>::empty());
            assert(subst(one, pa) =~= pa[i]);
        }
        assert(own.map_values(|a: Seq<TypeToken>| subst(a, pa)) =~= pa);
    } else {
        let q1 = q.drop_last();
        let x = q.last();
        assert((p + q).drop_last() =~= p + q1);
        assert((p + q).last() == x);
        lemma_chain_prefix(bases, start, p + q);
        lemma_chain_args_compose(bases, args, n_params, start, p, q1);
        let from = chain_end(start, p + q1);
        assert(from == chain_end(e, q1)) by {
            if q1.len() > 0 {
                assert((p + q1).last() == q1.last());
            } else {
                assert(p + q1 =~= p);
            }
        }
        lemma_edge_args(bases, args, n_params, from, x);
        let ea = edge_args(bases, args, from, x);
        let qa = chain_args(bases, args, n_params, e, q1);
        lemma_chain_split(bases, args, n_params, start, p, q1);
        lemma_chain_args_len(bases, args, n_params, e, q1);
        assert forall|a: int| 0 <= a < ea.len() implies #[trigger] subst(ea[a], chain_args(bases, args, n_params, start, p + q1))
            == subst(subst(ea[a], qa), pa) by {
            assert(params_below(ea[a], n_params[from as int] as nat));
            lemma_subst_compose(ea[a], qa, pa);
        }
        assert(chain_args(bases, args, n_params, start, p + q1) == qa.map_values(|a: Seq<TypeToken>| subst(a, pa)));
        assert(chain_args(bases, args, n_params, start, p + q) =~= chain_args(bases, args, n_params, e, q).map_values(
            |a: Seq<TypeToken>| subst(a, pa),
        ));
    }
}

// ---------------------------------------------------------------------------
// Computing arguments and signatures in context
// ---------------------------------------------------------------------------

proof fn lemma_types_push(a: Seq<Vec<TypeToken>>, x: Vec<TypeToken>)
    ensures
        types_view(a.push(x)) == types_view(a).push(x@),
{
    assert(types_view(a.push(x)) =~= types_view(a).push(x@));
}

/// Every type of `tys` with the parameters replaced by `subs`: the argument and
/// return types of an inherited method as a class that inherits it sees them.
pub fn types_in_context(tys: &Vec<Vec<TypeToken>>, subs: &Vec<Vec<TypeToken>>) -> (res: Vec<Vec<TypeToken>>)
    ensures
        types_view(res@) == types_view(tys@).map_values(|a: Seq<TypeToken>| subst(a, types_view(subs@))),
{
    let ghost sv = types_view(subs@);
    let mut res: Vec<Vec<TypeToken>> = Vec::new();
    let mut k: usize = 0;
    while k < tys.len()
        invariant
            sv == types_view(subs@),
            k <= tys@.len(),
            types_view(res@) == types_view(tys@).take(k as int).map_values(|a: Seq<TypeToken>| subst(a, sv)),
        decreases tys@.len() - k,
    {
        let t = substitute(&tys[k], subs);
        let ghost before = res@;
        res.push(t);
        proof {
            lemma_types_push(before, t);
            assert(types_view(tys@)[k as int] == tys@[k as int]@);
            assert(types_view(res@) =~= types_view(tys@).take(k + 1).map_values(|a: Seq<TypeToken>| subst(a, sv)));
        }
        k = k + 1;
    }
    assert(types_view(tys@).take(tys@.len() as int) =~= types_view(tys@));
    res
}

fn own_params_exec(n: usize) -> (res: Vec<Vec<TypeToken>>)
    ensures
        types_view(res@) == own_params(n as nat),
{
    let mut res: Vec<Vec<TypeToken>> = Vec::new();
    let mut i: usize = 0;
    while i < n
        invariant
            i <= n,
            types_view(res@) == own_params(i as nat),
        decreases n - i,
    {
        let mut one: Vec<TypeToken> = Vec::new();
        one.push(TypeToken::Param(i));
        let ghost before = res@;
        assert(one@ =~= seq![TypeToken::Param(i)]);
        res.push(one);
        proof {
            lemma_types_push(before, one);
            assert(types_view(res@) =~= own_params((i + 1) as nat));
        }
        i = i + 1;
    }
    res
}

fn first_position(s: &Vec<usize>, x: usize) -> (res: Option<usize>)
    ensures
        res matches Some(t) ==> first_at(s@, x, 0) == Some(t as int),
        res is None ==> first_at(s@, x, 0) is None,
{
    let mut k: usize = 0;
    while k < s.len()
        invariant
            k <= s@.len(),
            first_at(s@, x, 0) == first_at(s@, x, k as nat),
        decreases s@.len() - k,
    {
        if s[k] == x {
            return Some(k);
        }
        k = k + 1;
    }
    None
}

/// The arguments of the ancestor that chain `path` from `start` reaches (see
/// `chain_args`).
pub fn chain_arguments(
    bases: &[Vec<usize>],
    args: &[Vec<Vec<Vec<TypeToken>>>],
    n_params: &[usize],
    start: usize,
    path: &Vec<usize>,
) -> (res: Vec<Vec<TypeToken>>)
    requires
        args_well_formed(seqs_view(bases@), args_view(args@), n_params@),
        start < bases@.len(),
    ensures
        types_view(res@) == chain_args(seqs_view(bases@), args_view(args@), n_params@, start, path@),
{
    let ghost g = seqs_view(bases@);
    let ghost av = args_view(args@);
    let mut subs = own_params_exec(n_params[start]);
    let mut cur = start;
    let mut k: usize = 0;
    while k < path.len()
        invariant
            g == seqs_view(bases@),
            av == args_view(args@),
            args_well_formed(g, av, n_params@),
            start < bases@.len(),
            k <= path@.len(),
            cur == chain_end(start, path@.take(k as int)),
            types_view(subs@) == chain_args(g, av, n_params@, start, path@.take(k as int)),
        decreases path@.len() - k,
    {
        let next = path[k];
        let ghost pre = path@.take(k as int);
        let ghost now = path@.take(k + 1);
        proof {
            assert(now.drop_last() =~= pre);
            assert(now.last() == next);
        }
        let mut step: Vec<Vec<TypeToken>> = Vec::new();
        if cur < bases.len() {
            assert(bases@[cur as int]@ == g[cur as int]);
            let found = first_position(&bases[cur], next);
            match found {
                Some(t) => {
                    proof {
                        lemma_first_at(g[cur as int], next, 0);
                        assert(av[cur as int].len() == g[cur as int].len());
                    }
                    assert(types_view(args@[cur as int]@[t as int]@) == av[cur as int][t as int]);
                    step = types_in_context(&args[cur][t], &subs);
                },
                None => {
                    assert(types_view(step@) =~= Seq::<Seq<TypeToken>>::empty());
                },
            }
        } else {
            assert(types_view(step@) =~= Seq::<Seq<TypeToken>>::empty());
        }
        subs = step;
        cur = next;
        k = k + 1;
    }
    assert(path@.take(path@.len() as int) =~= path@);
    subs
}

fn same_tokens(a: &Vec<TypeToken>, b: &Vec<TypeToken>) -> (res: bool)
    ensures
        res == (a@ == b@),
{
    if a.len() != b.len() {
        return false;
    }
    let mut k: usize = 0;
    while k < a.len()
        invariant
            a@.len() == b@.len(),
            k <= a@.len(),
            forall|j: int| 0 <= j < k ==> a@[j] == b@[j],
        decreases a@.len() - k,
    {
        if a[k] != b[k] {
            return false;
        }
        k = k + 1;
    }
    assert(a@ =~= b@);
    true
}

/// Whether two lists of types are the same written types.
pub fn same_types(a: &Vec<Vec<TypeToken>>, b: &Vec<Vec<TypeToken>>) -> (res: bool)
    ensures
        res == (types_view(a@) == types_view(b@)),
{
    if a.len() != b.len() {
        assert(types_view(a@).len() != types_view(b@).len());
        return false;
    }
    let mut k: usize = 0;
    while k < a.len()
        invariant
            a@.len() == b@.len(),
            k <= a@.len(),
            forall|j: int| 0 <= j < k ==> a@[j]@ == b@[j]@,
        decreases a@.len() - k,
    {
        if !same_tokens(&a[k], &b[k]) {
            assert(types_view(a@)[k as int] != types_view(b@)[k as int]);
            return false;
        }
        k = k + 1;
    }
    assert(types_view(a@) =~= types_view(b@));
    true
}

} // verus!
