use vstd::prelude::*;

use crate::text::{decimal, push_decimal};

verus! {

/// Why a class hierarchy has no C3 linearization.
#[derive(Debug, Clone, Copy, PartialEq, Eq, Structural)]
pub enum C3Error {
    /// The class lies on an inheritance cycle.
    Cycle { class: usize },
    /// The bases of the class cannot be merged consistently.
    Inconsistent { class: usize },
}

impl C3Error {
    /// The index of the class the error is reported for.
    pub open spec fn class_of(self) -> usize {
        match self {
            C3Error::Cycle { class } => class,
            C3Error::Inconsistent { class } => class,
        }
    }

    /// The diagnostic for the class named `name`.
    pub open spec fn message_text(self, name: Seq<char>) -> Seq<char> {
        match self {
            C3Error::Cycle { .. } => "inheritance cycle involving class `"@ + name + "`"@,
            C3Error::Inconsistent { .. } => "cannot compute a consistent C3 method resolution order for class `"@
                + name + "`"@,
        }
    }

    /// The short form, with the class index in decimal.
    pub open spec fn display_text(self) -> Seq<char> {
        match self {
            C3Error::Cycle { class } => "cycle at class index "@ + decimal(class as nat),
            C3Error::Inconsistent { class } => "inconsistent class index "@ + decimal(class as nat),
        }
    }

    /// The diagnostic for the error, naming the class by `names[class]`.
    pub fn message(&self, names: &[String]) -> (res: String)
        requires
            self.class_of() < names@.len(),
        ensures
            res@ == self.message_text(names@[self.class_of() as int]@),
    {
        match *self {
            C3Error::Cycle { class } => {
                let mut text = String::from_str("inheritance cycle involving class `");
                text.append(names[class].as_str());
                text.append("`");
                text
            },
            C3Error::Inconsistent { class } => {
                let mut text = String::from_str(
                    "cannot compute a consistent C3 method resolution order for class `",
                );
                text.append(names[class].as_str());
                text.append("`");
                text
            },
        }
    }

    /// The short form of the error, as its `Display` prints it.
    pub fn to_display_string(&self) -> (res: String)
        ensures
            res@ == self.display_text(),
    {
        match *self {
            C3Error::Cycle { class } => {
                let mut text = String::from_str("cycle at class index ");
                push_decimal(&mut text, class);
                text
            },
            C3Error::Inconsistent { class } => {
                let mut text = String::from_str("inconsistent class index ");
                push_decimal(&mut text, class);
                text
            },
        }
    }
}

// ---------------------------------------------------------------------------
// The C3 merge
// ---------------------------------------------------------------------------

/// `x` occurs in `s` after its first position.
pub open spec fn in_tail(s: Seq<usize>, x: usize) -> bool {
    exists|k: int| 1 <= k < s.len() && s[k] == x
}

/// `x` occurs in the tail of none of the sequences.
pub open spec fn free_head(seqs: Seq<Seq<usize>>, x: usize) -> bool {
    forall|k: int| 0 <= k < seqs.len() ==> !in_tail(#[trigger] seqs[k], x)
}

/// The head of the first non-empty sequence, at index `from` or later, whose head
/// occurs in no tail.
pub open spec fn candidate_from(seqs: Seq<Seq<usize>>, from: int) -> Option<usize>
    decreases seqs.len() - from,
{
    if from < 0 || from >= seqs.len() {
        None
    } else if seqs[from].len() > 0 && free_head(seqs, seqs[from][0]) {
        Some(seqs[from][0])
    } else {
        candidate_from(seqs, from + 1)
    }
}

pub open spec fn all_empty(seqs: Seq<Seq<usize>>) -> bool {
    forall|k: int| 0 <= k < seqs.len() ==> (#[trigger] seqs[k]).len() == 0
}

/// `s` without its head when the head is `c`.
pub open spec fn drop_head(s: Seq<usize>, c: usize) -> Seq<usize> {
    if s.len() > 0 && s[0] == c {
        s.subrange(1, s.len() as int)
    } else {
        s
    }
}

pub open spec fn drop_heads(seqs: Seq<Seq<usize>>, c: usize) -> Seq<Seq<usize>> {
    Seq::new(seqs.len(), |k: int| drop_head(seqs[k], c))
}

pub open spec fn total_len(seqs: Seq<Seq<usize>>) -> nat
    decreases seqs.len(),
{
    if seqs.len() == 0 {
        0
    } else {
        total_len(seqs.drop_last()) + seqs.last().len()
    }
}

/// The C3 merge: repeatedly take the first head that occurs in no tail, and remove it
/// from the heads of all sequences; `None` when no such head exists before all
/// sequences are exhausted.
pub open spec fn merged(seqs: Seq<Seq<usize>>) -> Option<Seq<usize>>
    decreases total_len(seqs),
{
    if all_empty(seqs) {
        Some(Seq::empty())
    } else {
        match candidate_from(seqs, 0) {
            None => None,
            Some(c) => {
                proof {
                    lemma_candidate_is_head(seqs, 0);
                    lemma_drop_heads_shrinks(seqs, c);
                }
                match merged(drop_heads(seqs, c)) {
                    None => None,
                    Some(rest) => Some(seq![c] + rest),
                }
            }
        }
    }
}

proof fn lemma_free_head_insert_empty(seqs: Seq<Seq<usize>>, k: int, x: usize)
    requires
        0 <= k <= seqs.len(),
    ensures
        free_head(seqs.insert(k, Seq::empty()), x) == free_head(seqs, x),
{
    let t = seqs.insert(k, Seq::empty());
    if free_head(seqs, x) {
        assert forall|j: int| 0 <= j < t.len() implies !in_tail(#[trigger] t[j], x) by {
            if j < k {
                assert(t[j] == seqs[j]);
            } else if j > k {
                assert(t[j] == seqs[j - 1]);
            }
        }
    }
    if free_head(t, x) {
        assert forall|j: int| 0 <= j < seqs.len() implies !in_tail(#[trigger] seqs[j], x) by {
            if j < k {
                assert(t[j] == seqs[j]);
            } else {
                assert(t[j + 1] == seqs[j]);
            }
        }
    }
}

proof fn lemma_candidate_insert_empty(seqs: Seq<Seq<usize>>, k: int, from: int)
    requires
        0 <= k <= seqs.len(),
        0 <= from <= seqs.len(),
    ensures
        from <= k ==> candidate_from(seqs.insert(k, Seq::empty()), from) == candidate_from(seqs, from),
        from >= k ==> candidate_from(seqs.insert(k, Seq::empty()), from + 1) == candidate_from(seqs, from),
    decreases seqs.len() - from,
{
    let t = seqs.insert(k, Seq::empty());
    if from < seqs.len() {
        lemma_candidate_insert_empty(seqs, k, from + 1);
        if from < seqs.len() && seqs[from].len() > 0 {
            lemma_free_head_insert_empty(seqs, k, seqs[from][0]);
        }
        if from < k {
            assert(t[from] == seqs[from]);
        } else if from == k {
            assert(t[from].len() == 0);
            assert(t[from + 1] == seqs[from]);
        } else {
            assert(t[from + 1] == seqs[from]);
        }
    } else {
        if from == k {
            assert(t[from].len() == 0);
        }
    }
}

/// Empty sequences do not change the merge: inserting one anywhere gives the same
/// result.
pub proof fn lemma_merge_ignores_empty(seqs: Seq<Seq<usize>>, k: int)
    requires
        0 <= k <= seqs.len(),
    ensures
        merged(seqs.insert(k, Seq::empty())) == merged(seqs),
    decreases total_len(seqs),
{
    let t = seqs.insert(k, Seq::empty());
    assert(all_empty(t) == all_empty(seqs)) by {
        if all_empty(seqs) {
            assert forall|j: int| 0 <= j < t.len() implies (#[trigger] t[j]).len() == 0 by {
                if j < k {
                    assert(t[j] == seqs[j]);
                } else if j > k {
                    assert(t[j] == seqs[j - 1]);
                }
            }
        }
        if all_empty(t) {
            assert forall|j: int| 0 <= j < seqs.len() implies (#[trigger] seqs[j]).len() == 0 by {
                if j < k {
                    assert(t[j] == seqs[j]);
                } else {
                    assert(t[j + 1] == seqs[j]);
                }
            }
        }
    }
    if !all_empty(seqs) {
        lemma_candidate_insert_empty(seqs, k, 0);
        if k == 0 {
            assert(t[0].len() == 0);
            assert(candidate_from(t, 0) == candidate_from(t, 1));
        }
        match candidate_from(seqs, 0) {
            None => {},
            Some(c) => {
                lemma_candidate_is_head(seqs, 0);
                lemma_drop_heads_shrinks(seqs, c);
                assert(drop_heads(t, c) =~= drop_heads(seqs, c).insert(k, Seq::empty()));
                lemma_merge_ignores_empty(drop_heads(seqs, c), k);
            },
        }
    }
}

pub proof fn lemma_candidate_is_head(seqs: Seq<Seq<usize>>, from: int)
    requires
        candidate_from(seqs, from) is Some,
    ensures
        exists|k: int|
            from <= k < seqs.len() && (#[trigger] seqs[k]).len() > 0 && seqs[k][0]
                == candidate_from(seqs, from)->0 && free_head(seqs, seqs[k][0]),
    decreases seqs.len() - from,
{
    if seqs[from].len() > 0 && free_head(seqs, seqs[from][0]) {
        assert(seqs[from].len() > 0);
    } else {
        lemma_candidate_is_head(seqs, from + 1);
    }
}

pub proof fn lemma_drop_heads_shrinks(seqs: Seq<Seq<usize>>, c: usize)
    ensures
        total_len(drop_heads(seqs, c)) <= total_len(seqs),
        (exists|k: int| 0 <= k < seqs.len() && (#[trigger] seqs[k]).len() > 0 && seqs[k][0] == c)
            ==> total_len(drop_heads(seqs, c)) < total_len(seqs),
    decreases seqs.len(),
{
    if seqs.len() > 0 {
        let d = drop_heads(seqs, c);
        assert(d.drop_last() =~= drop_heads(seqs.drop_last(), c));
        lemma_drop_heads_shrinks(seqs.drop_last(), c);
        if exists|k: int| 0 <= k < seqs.len() && (#[trigger] seqs[k]).len() > 0 && seqs[k][0] == c {
            let k = choose|k: int| 0 <= k < seqs.len() && (#[trigger] seqs[k]).len() > 0 && seqs[k][0] == c;
            if k < seqs.len() - 1 {
                assert(seqs.drop_last()[k] == seqs[k]);
            }
        }
    }
}


// ---------------------------------------------------------------------------
// What a merge keeps
// ---------------------------------------------------------------------------

/// `a` occurs in `b` in order, possibly with other items between.
pub open spec fn is_subseq(a: Seq<usize>, b: Seq<usize>) -> bool
    decreases b.len(),
{
    if a.len() == 0 {
        true
    } else if b.len() == 0 {
        false
    } else if a[0] == b[0] {
        is_subseq(a.drop_first(), b.drop_first())
    } else {
        is_subseq(a, b.drop_first())
    }
}

pub proof fn lemma_subseq_contains(a: Seq<usize>, b: Seq<usize>, x: usize)
    requires
        is_subseq(a, b),
        a.contains(x),
    ensures
        b.contains(x),
    decreases b.len(),
{
    if a[0] == b[0] {
        if a[0] == x {
            assert(b[0] == x);
        } else {
            let k = choose|k: int| 0 <= k < a.len() && a[k] == x;
            assert(a.drop_first()[k - 1] == x);
            lemma_subseq_contains(a.drop_first(), b.drop_first(), x);
            let j = choose|j: int| 0 <= j < b.len() - 1 && b.drop_first()[j] == x;
            assert(b[j + 1] == x);
        }
    } else {
        lemma_subseq_contains(a, b.drop_first(), x);
        let j = choose|j: int| 0 <= j < b.len() - 1 && b.drop_first()[j] == x;
        assert(b[j + 1] == x);
    }
}

proof fn lemma_subseq_prepend(a: Seq<usize>, b: Seq<usize>, c: usize)
    requires
        is_subseq(drop_head(a, c), b),
    ensures
        is_subseq(a, seq![c] + b),
{
    let cb = seq![c] + b;
    assert(cb.drop_first() =~= b);
    if a.len() > 0 && a[0] == c {
        assert(a.drop_first() =~= a.subrange(1, a.len() as int));
    }
}

proof fn lemma_drop_heads_index(seqs: Seq<Seq<usize>>, c: usize, k: int)
    requires
        0 <= k < seqs.len(),
    ensures
        drop_heads(seqs, c)[k] == drop_head(seqs[k], c),
{
}

/// The merge keeps the order of every merged sequence.
pub proof fn lemma_merged_keeps_order(seqs: Seq<Seq<usize>>, k: int)
    requires
        0 <= k < seqs.len(),
        merged(seqs) is Some,
    ensures
        is_subseq(seqs[k], merged(seqs)->0),
    decreases total_len(seqs),
{
    if all_empty(seqs) {
        assert(seqs[k].len() == 0);
    } else {
        let c = candidate_from(seqs, 0)->0;
        lemma_candidate_is_head(seqs, 0);
        lemma_drop_heads_shrinks(seqs, c);
        lemma_merged_keeps_order(drop_heads(seqs, c), k);
        lemma_drop_heads_index(seqs, c, k);
        lemma_subseq_prepend(seqs[k], merged(drop_heads(seqs, c))->0, c);
    }
}

/// Every item of a merge comes from one of the merged sequences.
pub proof fn lemma_merged_items(seqs: Seq<Seq<usize>>, x: usize)
    requires
        merged(seqs) is Some,
        merged(seqs)->0.contains(x),
    ensures
        exists|k: int| 0 <= k < seqs.len() && (#[trigger] seqs[k]).contains(x),
    decreases total_len(seqs),
{
    if all_empty(seqs) {
        assert(merged(seqs)->0.len() == 0);
    } else {
        let c = candidate_from(seqs, 0)->0;
        lemma_candidate_is_head(seqs, 0);
        lemma_drop_heads_shrinks(seqs, c);
        let rest = merged(drop_heads(seqs, c))->0;
        assert(merged(seqs)->0 == seq![c] + rest);
        if x == c {
            let k = choose|k: int|
                0 <= k < seqs.len() && (#[trigger] seqs[k]).len() > 0 && seqs[k][0] == c && free_head(seqs, seqs[k][0]);
            assert(seqs[k][0] == x);
        } else {
            let j = choose|j: int| 0 <= j < seq![c].add(rest).len() && (seq![c] + rest)[j] == x;
            assert(rest[j - 1] == x);
            lemma_merged_items(drop_heads(seqs, c), x);
            let k = choose|k: int|
                0 <= k < drop_heads(seqs, c).len() && (#[trigger] drop_heads(seqs, c)[k]).contains(x);
            lemma_drop_heads_index(seqs, c, k);
            let d = drop_heads(seqs, c)[k];
            let i = choose|i: int| 0 <= i < d.len() && d[i] == x;
            if seqs[k].len() > 0 && seqs[k][0] == c {
                assert(seqs[k][i + 1] == x);
            } else {
                assert(seqs[k][i] == x);
            }
        }
    }
}

/// No item occurs twice in a merge.
pub proof fn lemma_merged_no_duplicates(seqs: Seq<Seq<usize>>)
    requires
        merged(seqs) is Some,
    ensures
        merged(seqs)->0.no_duplicates(),
    decreases total_len(seqs),
{
    if !all_empty(seqs) {
        let c = candidate_from(seqs, 0)->0;
        lemma_candidate_is_head(seqs, 0);
        lemma_drop_heads_shrinks(seqs, c);
        let d = drop_heads(seqs, c);
        let rest = merged(d)->0;
        lemma_merged_no_duplicates(d);
        if rest.contains(c) {
            lemma_merged_items(d, c);
            let k = choose|k: int| 0 <= k < d.len() && (#[trigger] d[k]).contains(c);
            lemma_drop_heads_index(seqs, c, k);
            let i = choose|i: int| 0 <= i < d[k].len() && d[k][i] == c;
            assert(!in_tail(seqs[k], c));
            if seqs[k].len() > 0 && seqs[k][0] == c {
                assert(seqs[k][i + 1] == c);
            } else {
                if i == 0 {
                    assert(seqs[k][0] == c);
                } else {
                    assert(seqs[k][i] == c);
                }
            }
        }
        let m = seq![c] + rest;
        assert forall|a: int, b: int| 0 <= a < m.len() && 0 <= b < m.len() && a != b implies m[a]
            != m[b] by {
            if a == 0 && b > 0 {
                assert(rest[b - 1] == m[b]);
            } else if b == 0 && a > 0 {
                assert(rest[a - 1] == m[a]);
            } else if a > 0 && b > 0 {
                assert(rest[a - 1] == m[a] && rest[b - 1] == m[b]);
            }
        }
    }
}

// ---------------------------------------------------------------------------
// When a merge succeeds
// ---------------------------------------------------------------------------

/// `x` comes before `y` in one of the sequences.
pub open spec fn precedes(seqs: Seq<Seq<usize>>, x: usize, y: usize) -> bool {
    exists|k: int, a: int, b: int|
        #![trigger seqs[k][a], seqs[k][b]]
        0 <= k < seqs.len() && 0 <= a < b < seqs[k].len() && seqs[k][a] == x && seqs[k][b] == y
}

/// `c` steps from item to item along `precedes` and ends where it starts.
pub open spec fn precedence_cycle(seqs: Seq<Seq<usize>>, c: Seq<usize>) -> bool {
    &&& c.len() >= 2
    &&& c[0] == c[c.len() - 1]
    &&& forall|t: int| 0 <= t < c.len() - 1 ==> #[trigger] precedes(seqs, c[t], c[t + 1])
}

/// The orders that the sequences ask for can all be kept at once.
pub open spec fn precedence_acyclic(seqs: Seq<Seq<usize>>) -> bool {
    forall|c: Seq<usize>| !#[trigger] precedence_cycle(seqs, c)
}

/// Removing a head keeps every order between the other items, and adds none.
proof fn lemma_drop_heads_precedes(seqs: Seq<Seq<usize>>, x: usize, u: usize, v: usize)
    requires
        u != x,
    ensures
        precedes(drop_heads(seqs, x), u, v) <==> precedes(seqs, u, v),
{
    let d = drop_heads(seqs, x);
    if precedes(d, u, v) {
        let (k, a, b) = choose|k: int, a: int, b: int|
            #![trigger d[k][a], d[k][b]]
            0 <= k < d.len() && 0 <= a < b < d[k].len() && d[k][a] == u && d[k][b] == v;
        lemma_drop_heads_index(seqs, x, k);
        if seqs[k].len() > 0 && seqs[k][0] == x {
            assert(seqs[k][a + 1] == u && seqs[k][b + 1] == v);
        } else {
            assert(seqs[k][a] == u && seqs[k][b] == v);
        }
    }
    if precedes(seqs, u, v) {
        let (k, a, b) = choose|k: int, a: int, b: int|
            #![trigger seqs[k][a], seqs[k][b]]
            0 <= k < seqs.len() && 0 <= a < b < seqs[k].len() && seqs[k][a] == u && seqs[k][b] == v;
        lemma_drop_heads_index(seqs, x, k);
        if seqs[k].len() > 0 && seqs[k][0] == x {
            assert(a >= 1);
            assert(d[k][a - 1] == u && d[k][b - 1] == v);
        } else {
            assert(d[k][a] == u && d[k][b] == v);
        }
    }
}

/// A free head is preceded by nothing.
proof fn lemma_free_head_not_preceded(seqs: Seq<Seq<usize>>, x: usize, y: usize)
    requires
        free_head(seqs, x),
    ensures
        !precedes(seqs, y, x),
{
    if precedes(seqs, y, x) {
        let (k, a, b) = choose|k: int, a: int, b: int|
            #![trigger seqs[k][a], seqs[k][b]]
            0 <= k < seqs.len() && 0 <= a < b < seqs[k].len() && seqs[k][a] == y && seqs[k][b] == x;
        assert(in_tail(seqs[k], x));
    }
}

proof fn lemma_merged_has_no_cycle(seqs: Seq<Seq<usize>>, c: Seq<usize>)
    requires
        merged(seqs) is Some,
    ensures
        !precedence_cycle(seqs, c),
    decreases total_len(seqs),
{
    if precedence_cycle(seqs, c) {
        assert(precedes(seqs, c[0], c[1]));
        if all_empty(seqs) {
            let (k, a, b) = choose|k: int, a: int, b: int|
                #![trigger seqs[k][a], seqs[k][b]]
                0 <= k < seqs.len() && 0 <= a < b < seqs[k].len() && seqs[k][a] == c[0] && seqs[k][b]
                    == c[1];
            assert(seqs[k].len() == 0);
        } else {
            let x = candidate_from(seqs, 0)->0;
            lemma_candidate_is_head(seqs, 0);
            lemma_drop_heads_shrinks(seqs, x);
            let k0 = choose|k: int|
                0 <= k < seqs.len() && (#[trigger] seqs[k]).len() > 0 && seqs[k][0] == x && free_head(seqs, seqs[k][0]);
            assert forall|t: int| 1 <= t < c.len() implies c[t] != x by {
                let s = t - 1;
                assert(precedes(seqs, c[s], c[s + 1]));
                lemma_free_head_not_preceded(seqs, x, c[s]);
            }
            assert(c[0] != x) by {
                assert(c[0] == c[c.len() - 1]);
            }
            let d = drop_heads(seqs, x);
            assert forall|t: int| 0 <= t < c.len() - 1 implies #[trigger] precedes(d, c[t], c[t + 1]) by {
                assert(precedes(seqs, c[t], c[t + 1]));
                lemma_drop_heads_precedes(seqs, x, c[t], c[t + 1]);
            }
            assert(precedence_cycle(d, c));
            lemma_merged_has_no_cycle(d, c);
        }
    }
}

proof fn lemma_candidate_none(seqs: Seq<Seq<usize>>, from: int, k: int)
    requires
        0 <= from <= k < seqs.len(),
        candidate_from(seqs, from) is None,
        seqs[k].len() > 0,
    ensures
        !free_head(seqs, seqs[k][0]),
    decreases k - from,
{
    if from < k {
        lemma_candidate_none(seqs, from + 1, k);
    }
}

/// A sequence whose tail holds the head of sequence `k`.
spec fn holder(seqs: Seq<Seq<usize>>, k: int) -> int {
    choose|h: int| 0 <= h < seqs.len() && in_tail(#[trigger] seqs[h], seqs[k][0])
}

/// Starting at sequence `k`, go `m` times to a sequence whose tail holds the
/// current head.
spec fn holder_chain(seqs: Seq<Seq<usize>>, k: int, m: nat) -> Seq<int>
    decreases m,
{
    if m == 0 {
        seq![k]
    } else {
        let c = holder_chain(seqs, k, (m - 1) as nat);
        c.push(holder(seqs, c.last()))
    }
}

proof fn lemma_holder_chain(seqs: Seq<Seq<usize>>, k: int, m: nat)
    requires
        0 <= k < seqs.len(),
        seqs[k].len() > 0,
        forall|j: int| 0 <= j < seqs.len() && (#[trigger] seqs[j]).len() > 0 ==> !free_head(seqs, seqs[j][0]),
    ensures
        holder_chain(seqs, k, m).len() == m + 1,
        forall|t: int|
            0 <= t <= m ==> 0 <= #[trigger] holder_chain(seqs, k, m)[t] < seqs.len() && seqs[holder_chain(
                seqs,
                k,
                m,
            )[t]].len() > 0,
        forall|t: int|
            0 <= t < m ==> precedes(
                seqs,
                seqs[#[trigger] holder_chain(seqs, k, m)[t + 1]][0],
                seqs[holder_chain(seqs, k, m)[t]][0],
            ),
    decreases m,
{
    if m > 0 {
        let c = holder_chain(seqs, k, (m - 1) as nat);
        lemma_holder_chain(seqs, k, (m - 1) as nat);
        let last = c.last();
        assert(0 <= last < seqs.len() && seqs[last].len() > 0) by {
            assert(c[m - 1] == last);
        }
        assert(!free_head(seqs, seqs[last][0]));
        let h = holder(seqs, last);
        assert(0 <= h < seqs.len() && in_tail(seqs[h], seqs[last][0]));
        let j = choose|j: int| 1 <= j < seqs[h].len() && seqs[h][j] == seqs[last][0];
        assert(seqs[h][0] == seqs[h][0] && seqs[h][j] == seqs[last][0]);
        assert(precedes(seqs, seqs[h][0], seqs[last][0]));
        let cm = holder_chain(seqs, k, m);
        assert(cm == c.push(h));
        assert forall|t: int| 0 <= t <= m implies 0 <= #[trigger] cm[t] < seqs.len() && seqs[cm[t]].len()
            > 0 by {
            if t < m {
                assert(cm[t] == c[t]);
            }
        }
        assert forall|t: int| 0 <= t < m implies precedes(seqs, seqs[#[trigger] cm[t + 1]][0], seqs[cm[t]][0]) by {
            if t < m - 1 {
                assert(cm[t + 1] == c[t + 1] && cm[t] == c[t]);
            } else {
                assert(cm[t + 1] == h && cm[t] == last);
            }
        }
    }
}

/// Among more values than there are numbers below `n`, one repeats.
proof fn lemma_some_index_repeats(s: Seq<int>, n: int)
    requires
        0 <= n < s.len(),
        forall|t: int| 0 <= t < s.len() ==> 0 <= #[trigger] s[t] < n,
    ensures
        exists|a: int, b: int| 0 <= a < b < s.len() && s[a] == s[b],
{
    if !exists|a: int, b: int| 0 <= a < b < s.len() && s[a] == s[b] {
        assert(s.no_duplicates()) by {
            assert forall|i: int, j: int| 0 <= i < s.len() && 0 <= j < s.len() && i != j implies s[i] != s[j] by {
                if i < j {
                    assert(!(s[i] == s[j]));
                } else {
                    assert(!(s[j] == s[i]));
                }
            }
        }
        s.unique_seq_to_set();
        vstd::set_lib::lemma_int_range(0, n);
        assert(s.to_set().subset_of(vstd::set_lib::set_int_range(0, n))) by {
            assert forall|v: int| s.to_set().contains(v) implies vstd::set_lib::set_int_range(0, n).contains(v) by {
                let t = choose|t: int| 0 <= t < s.len() && s[t] == v;
            }
        }
        vstd::set_lib::lemma_len_subset(s.to_set(), vstd::set_lib::set_int_range(0, n));
    }
}

/// When no head is free, the heads close a cycle of the order.
proof fn lemma_stuck_merge_has_cycle(seqs: Seq<Seq<usize>>)
    requires
        !all_empty(seqs),
        candidate_from(seqs, 0) is None,
    ensures
        !precedence_acyclic(seqs),
{
    let k = choose|k: int| 0 <= k < seqs.len() && (#[trigger] seqs[k]).len() != 0;
    assert forall|j: int| 0 <= j < seqs.len() && (#[trigger] seqs[j]).len() > 0 implies !free_head(seqs, seqs[j][0]) by {
        lemma_candidate_none(seqs, 0, j);
    }
    let n = seqs.len() as nat;
    let ch = holder_chain(seqs, k, n);
    lemma_holder_chain(seqs, k, n);
    lemma_some_index_repeats(ch, n as int);
    let (a, b) = choose|a: int, b: int| 0 <= a < b < ch.len() && ch[a] == ch[b];
    lemma_cycle_from_chain(seqs, ch, a, b);
}

proof fn lemma_cycle_from_chain(seqs: Seq<Seq<usize>>, ch: Seq<int>, a: int, b: int)
    requires
        0 <= a < b < ch.len(),
        ch[a] == ch[b],
        forall|t: int| 0 <= t < ch.len() ==> 0 <= #[trigger] ch[t] < seqs.len() && seqs[ch[t]].len() > 0,
        forall|t: int| 0 <= t < ch.len() - 1 ==> precedes(seqs, seqs[#[trigger] ch[t + 1]][0], seqs[ch[t]][0]),
    ensures
        !precedence_acyclic(seqs),
{
    let c = Seq::new((b - a + 1) as nat, |t: int| seqs[ch[b - t]][0]);
    assert forall|t: int| 0 <= t < c.len() - 1 implies #[trigger] precedes(seqs, c[t], c[t + 1]) by {
        let u = b - t - 1;
        assert(c[t] == seqs[ch[u + 1]][0]);
        assert(c[t + 1] == seqs[ch[u]][0]);
        assert(precedes(seqs, seqs[ch[u + 1]][0], seqs[ch[u]][0]));
    }
    assert(c[0] == c[c.len() - 1]);
    assert(precedence_cycle(seqs, c));
}

proof fn lemma_acyclic_merges(seqs: Seq<Seq<usize>>)
    requires
        precedence_acyclic(seqs),
    ensures
        merged(seqs) is Some,
    decreases total_len(seqs),
{
    if !all_empty(seqs) {
        if candidate_from(seqs, 0) is None {
            lemma_stuck_merge_has_cycle(seqs);
        }
        let x = candidate_from(seqs, 0)->0;
        lemma_candidate_is_head(seqs, 0);
        lemma_drop_heads_shrinks(seqs, x);
        let d = drop_heads(seqs, x);
        assert forall|c: Seq<usize>| !#[trigger] precedence_cycle(d, c) by {
            if precedence_cycle(d, c) {
                assert forall|t: int| 0 <= t < c.len() - 1 implies #[trigger] precedes(seqs, c[t], c[t + 1]) by {
                    assert(precedes(d, c[t], c[t + 1]));
                    if c[t] == x {
                        let (k, a, bb) = choose|k: int, a: int, bb: int|
                            #![trigger d[k][a], d[k][bb]]
                            0 <= k < d.len() && 0 <= a < bb < d[k].len() && d[k][a] == c[t] && d[k][bb] == c[t + 1];
                        lemma_drop_heads_index(seqs, x, k);
                        if seqs[k].len() > 0 && seqs[k][0] == x {
                            assert(seqs[k][a + 1] == x && seqs[k][bb + 1] == c[t + 1]);
                        } else {
                            assert(seqs[k][a] == x && seqs[k][bb] == c[t + 1]);
                        }
                    } else {
                        lemma_drop_heads_precedes(seqs, x, c[t], c[t + 1]);
                    }
                }
                assert(precedence_cycle(seqs, c));
            }
        }
        lemma_acyclic_merges(d);
    }
}

/// The C3 merge succeeds exactly when the orders of the merged sequences can all be
/// kept at once: when no chain of "comes before" leads from an item back to itself.
pub proof fn lemma_merge_succeeds_iff_acyclic(seqs: Seq<Seq<usize>>)
    ensures
        merged(seqs) is Some <==> precedence_acyclic(seqs),
{
    if merged(seqs) is Some {
        assert forall|c: Seq<usize>| !#[trigger] precedence_cycle(seqs, c) by {
            lemma_merged_has_no_cycle(seqs, c);
        }
    }
    if precedence_acyclic(seqs) {
        lemma_acyclic_merges(seqs);
    }
}

// ---------------------------------------------------------------------------
// Executable merge
// ---------------------------------------------------------------------------

/// The view of a list of vectors as sequences.
pub open spec fn seqs_view(v: Seq<Vec<usize>>) -> Seq<Seq<usize>> {
    v.map_values(|s: Vec<usize>| s@)
}

/// What is left of each sequence once its first `offs[k]` items are consumed.
spec fn remaining(seqs: Seq<Seq<usize>>, offs: Seq<usize>) -> Seq<Seq<usize>> {
    Seq::new(seqs.len(), |k: int| seqs[k].subrange(offs[k] as int, seqs[k].len() as int))
}

spec fn offsets_ok(seqs: Seq<Seq<usize>>, offs: Seq<usize>) -> bool {
    &&& offs.len() == seqs.len()
    &&& forall|k: int| 0 <= k < seqs.len() ==> offs[k] <= (#[trigger] seqs[k]).len()
}

fn tail_contains(s: &Vec<usize>, start: usize, x: usize) -> (res: bool)
    requires
        start <= s.len(),
    ensures
        res == in_tail(s@.subrange(start as int, s@.len() as int), x),
{
    let ghost t = s@.subrange(start as int, s@.len() as int);
    if start == s.len() {
        return false;
    }
    let mut j = start + 1;
    while j < s.len()
        invariant
            start < j <= s.len(),
            t == s@.subrange(start as int, s@.len() as int),
            forall|k: int| 1 <= k < j - start ==> t[k] != x,
        decreases s.len() - j,
    {
        if s[j] == x {
            assert(t[j - start] == x);
            return true;
        }
        j = j + 1;
    }
    false
}

fn head_is_free(seqs: &Vec<Vec<usize>>, offs: &Vec<usize>, x: usize) -> (res: bool)
    requires
        offsets_ok(seqs_view(seqs@), offs@),
    ensures
        res == free_head(remaining(seqs_view(seqs@), offs@), x),
{
    let ghost cur = remaining(seqs_view(seqs@), offs@);
    let mut k: usize = 0;
    while k < seqs.len()
        invariant
            k <= seqs.len(),
            offsets_ok(seqs_view(seqs@), offs@),
            cur == remaining(seqs_view(seqs@), offs@),
            forall|j: int| 0 <= j < k ==> !in_tail(#[trigger] cur[j], x),
        decreases seqs.len() - k,
    {
        assert(seqs_view(seqs@)[k as int] == seqs[k as int]@);
        if tail_contains(&seqs[k], offs[k], x) {
            assert(in_tail(cur[k as int], x));
            return false;
        }
        k = k + 1;
    }
    true
}

fn find_candidate(seqs: &Vec<Vec<usize>>, offs: &Vec<usize>) -> (res: Option<usize>)
    requires
        offsets_ok(seqs_view(seqs@), offs@),
    ensures
        res == candidate_from(remaining(seqs_view(seqs@), offs@), 0),
{
    let ghost cur = remaining(seqs_view(seqs@), offs@);
    let mut k: usize = 0;
    while k < seqs.len()
        invariant
            k <= seqs.len(),
            offsets_ok(seqs_view(seqs@), offs@),
            cur == remaining(seqs_view(seqs@), offs@),
            candidate_from(cur, 0) == candidate_from(cur, k as int),
        decreases seqs.len() - k,
    {
        assert(seqs_view(seqs@)[k as int] == seqs[k as int]@);
        if offs[k] < seqs[k].len() {
            let head = seqs[k][offs[k]];
            assert(cur[k as int][0] == head);
            if head_is_free(seqs, offs, head) {
                return Some(head);
            }
        }
        k = k + 1;
    }
    None
}

fn all_consumed(seqs: &Vec<Vec<usize>>, offs: &Vec<usize>) -> (res: bool)
    requires
        offsets_ok(seqs_view(seqs@), offs@),
    ensures
        res == all_empty(remaining(seqs_view(seqs@), offs@)),
{
    let ghost cur = remaining(seqs_view(seqs@), offs@);
    let mut k: usize = 0;
    while k < seqs.len()
        invariant
            k <= seqs.len(),
            offsets_ok(seqs_view(seqs@), offs@),
            cur == remaining(seqs_view(seqs@), offs@),
            forall|j: int| 0 <= j < k ==> (#[trigger] cur[j]).len() == 0,
        decreases seqs.len() - k,
    {
        assert(seqs_view(seqs@)[k as int] == seqs[k as int]@);
        if offs[k] < seqs[k].len() {
            assert(cur[k as int].len() > 0);
            return false;
        }
        k = k + 1;
    }
    true
}

/// Consumes the head `c` of every remaining sequence that starts with it.
fn consume_heads(seqs: &Vec<Vec<usize>>, offs: &mut Vec<usize>, c: usize)
    requires
        offsets_ok(seqs_view(seqs@), old(offs)@),
    ensures
        offsets_ok(seqs_view(seqs@), final(offs)@),
        remaining(seqs_view(seqs@), final(offs)@) == drop_heads(
            remaining(seqs_view(seqs@), old(offs)@),
            c,
        ),
{
    let ghost before = remaining(seqs_view(seqs@), offs@);
    let mut k: usize = 0;
    while k < seqs.len()
        invariant
            k <= seqs.len(),
            offs@.len() == seqs@.len(),
            offsets_ok(seqs_view(seqs@), offs@),
            before.len() == seqs@.len(),
            forall|j: int|
                #![trigger remaining(seqs_view(seqs@), offs@)[j]]
                0 <= j < k ==> remaining(seqs_view(seqs@), offs@)[j] == drop_head(before[j], c),
            forall|j: int|
                #![trigger remaining(seqs_view(seqs@), offs@)[j]]
                k <= j < seqs@.len() ==> remaining(seqs_view(seqs@), offs@)[j] == before[j],
        decreases seqs.len() - k,
    {
        assert(seqs_view(seqs@)[k as int] == seqs[k as int]@);
        let ghost prev = offs@;
        if offs[k] < seqs[k].len() && seqs[k][offs[k]] == c {
            let next = offs[k] + 1;
            offs.set(k, next);
            assert forall|j: int|
                #![trigger remaining(seqs_view(seqs@), offs@)[j]]
                0 <= j < seqs@.len() && j != k implies remaining(seqs_view(seqs@), offs@)[j]
                == remaining(seqs_view(seqs@), prev)[j] by {}
            assert(remaining(seqs_view(seqs@), prev)[k as int] == before[k as int]);
            assert(before[k as int] =~= seqs[k as int]@.subrange(prev[k as int] as int, seqs[k as int]@.len() as int));
            assert(before[k as int][0] == c);
            assert(remaining(seqs_view(seqs@), offs@)[k as int] =~= drop_head(before[k as int], c));
        } else {
            assert(remaining(seqs_view(seqs@), offs@)[k as int] == before[k as int]);
            assert(before[k as int] =~= seqs[k as int]@.subrange(offs[k as int] as int, seqs[k as int]@.len() as int));
            assert(drop_head(before[k as int], c) == before[k as int]);
        }
        k = k + 1;
    }
    assert(remaining(seqs_view(seqs@), offs@) =~= drop_heads(before, c));
}

/// The C3 merge of `sequences`: the merged order, or `None` when the sequences
/// cannot be merged consistently.
pub fn merge(sequences: Vec<Vec<usize>>) -> (res: Option<Vec<usize>>)
    ensures
        match res {
            Some(r) => merged(seqs_view(sequences@)) == Some(r@),
            None => merged(seqs_view(sequences@)) is None,
        },
{
    let ghost orig = seqs_view(sequences@);
    let mut offs: Vec<usize> = Vec::new();
    let mut k: usize = 0;
    while k < sequences.len()
        invariant
            k <= sequences.len(),
            offs@.len() == k,
            forall|j: int| 0 <= j < k ==> offs@[j] == 0,
        decreases sequences.len() - k,
    {
        offs.push(0);
        k = k + 1;
    }
    assert forall|j: int| 0 <= j < orig.len() implies #[trigger] remaining(orig, offs@)[j] == orig[j] by {
        assert(orig[j].subrange(0, orig[j].len() as int) =~= orig[j]);
    }
    assert(remaining(orig, offs@) =~= orig);
    let mut result: Vec<usize> = Vec::new();
    loop
        invariant
            orig == seqs_view(sequences@),
            offsets_ok(orig, offs@),
            merged(orig) == match merged(remaining(orig, offs@)) {
                Some(rest) => Some(result@ + rest),
                None => None::<Seq<usize>>,
            },
        decreases total_len(remaining(orig, offs@)),
    {
        let ghost cur = remaining(orig, offs@);
        if all_consumed(&sequences, &offs) {
            assert(result@ + Seq::<usize>::empty() =~= result@);
            return Some(result);
        }
        let candidate = match find_candidate(&sequences, &offs) {
            Some(c) => c,
            None => return None,
        };
        proof {
            lemma_candidate_is_head(cur, 0);
            lemma_drop_heads_shrinks(cur, candidate);
        }
        let ghost before = result@;
        result.push(candidate);
        consume_heads(&sequences, &mut offs, candidate);
        proof {
            match merged(remaining(orig, offs@)) {
                Some(rest) => {
                    assert(before + (seq![candidate] + rest) =~= result@ + rest);
                },
                None => {},
            }
        }
    }
}


// ---------------------------------------------------------------------------
// Linearization
// ---------------------------------------------------------------------------

/// Every base index names a class of the hierarchy.
pub open spec fn well_formed(g: Seq<Seq<usize>>) -> bool {
    forall|i: int, j: int| 0 <= i < g.len() && 0 <= j < g[i].len() ==> #[trigger] g[i][j] < g.len()
}

/// The C3 linearization of class `i`, unfolding the recursive definition at most
/// `fuel` levels deep: `i` followed by the merge of the linearizations of its bases
/// and the list of its bases. `None` when a merge fails or the fuel runs out.
pub open spec fn linearization(g: Seq<Seq<usize>>, i: usize, fuel: nat) -> Option<Seq<usize>>
    decreases fuel, 0nat,
{
    if fuel == 0 || i >= g.len() {
        None
    } else {
        match linearizations(g, g[i as int], (fuel - 1) as nat) {
            None => None,
            Some(subs) => match merged(subs.push(g[i as int])) {
                None => None,
                Some(m) => Some(seq![i] + m),
            },
        }
    }
}

/// The linearizations of each class in `bs`, when all of them exist.
pub open spec fn linearizations(g: Seq<Seq<usize>>, bs: Seq<usize>, fuel: nat) -> Option<
    Seq<Seq<usize>>,
>
    decreases fuel, bs.len() + 1,
{
    if bs.len() == 0 {
        Some(Seq::empty())
    } else {
        match linearizations(g, bs.drop_last(), fuel) {
            None => None,
            Some(xs) => match linearization(g, bs.last(), fuel) {
                None => None,
                Some(x) => Some(xs.push(x)),
            },
        }
    }
}

/// The method resolution order of class `i`. The recursive definition never needs
/// more levels than there are classes, so this is `None` exactly when `i` reaches an
/// inheritance cycle or a class whose bases cannot be merged.
pub open spec fn mro_of(g: Seq<Seq<usize>>, i: usize) -> Option<Seq<usize>> {
    linearization(g, i, g.len())
}

/// `b` is a direct base of class `a`.
pub open spec fn has_edge(g: Seq<Seq<usize>>, a: usize, b: usize) -> bool {
    a < g.len() && g[a as int].contains(b)
}

/// `p` follows base edges.
pub open spec fn is_path(g: Seq<Seq<usize>>, p: Seq<usize>) -> bool {
    forall|k: int| 0 <= k < p.len() - 1 ==> #[trigger] has_edge(g, p[k], p[k + 1])
}

/// `b` is reached from `a` by following one or more base edges.
pub open spec fn reaches_plus(g: Seq<Seq<usize>>, a: usize, b: usize) -> bool {
    exists|p: Seq<usize>|
        p.len() >= 2 && p[0] == a && p[p.len() - 1] == b && #[trigger] is_path(g, p)
}

/// The bases of `c` all have linearizations, and merging them with the list of the
/// bases fails.
pub open spec fn inconsistent_at(g: Seq<Seq<usize>>, c: usize) -> bool {
    &&& c < g.len()
    &&& linearizations(g, g[c as int], g.len()) matches Some(subs)
    &&& merged(subs.push(g[c as int])) is None
}

/// The class an error names.
pub open spec fn error_class(e: C3Error) -> usize {
    match e {
        C3Error::Cycle { class } => class,
        C3Error::Inconsistent { class } => class,
    }
}

/// The error that the depth-first walk meets when it enters class `i` while the
/// classes of `visiting` are still being visited, with at most `fuel` levels left.
/// A class met again while it is being visited closes a cycle. Otherwise the bases
/// are walked in declaration order and the first error among them is the answer;
/// when none fails, the class fails if its bases cannot be merged.
pub open spec fn walk_error(g: Seq<Seq<usize>>, visiting: Set<usize>, i: usize, fuel: nat) -> Option<
    C3Error,
>
    decreases fuel, 0nat,
{
    if visiting.contains(i) {
        Some(C3Error::Cycle { class: i })
    } else if fuel == 0 || i >= g.len() {
        None
    } else {
        match bases_walk_error(g, visiting.insert(i), g[i as int], (fuel - 1) as nat) {
            Some(e) => Some(e),
            None => if inconsistent_at(g, i) {
                Some(C3Error::Inconsistent { class: i })
            } else {
                None
            },
        }
    }
}

/// The first error met by walking the classes of `bs` one after the other.
pub open spec fn bases_walk_error(
    g: Seq<Seq<usize>>,
    visiting: Set<usize>,
    bs: Seq<usize>,
    fuel: nat,
) -> Option<C3Error>
    decreases fuel, bs.len() + 1,
{
    if bs.len() == 0 {
        None
    } else {
        match bases_walk_error(g, visiting, bs.drop_last(), fuel) {
            Some(e) => Some(e),
            None => walk_error(g, visiting, bs.last(), fuel),
        }
    }
}

/// The error of the depth-first walk that starts at class `i`.
pub open spec fn dfs_error(g: Seq<Seq<usize>>, i: usize) -> Option<C3Error> {
    walk_error(g, Set::empty(), i, g.len())
}

/// Class `i` is the first class whose depth-first walk fails, and it fails with `e`.
pub open spec fn first_dfs_error(g: Seq<Seq<usize>>, i: usize, e: C3Error) -> bool {
    &&& i < g.len()
    &&& forall|j: usize| j < i ==> (#[trigger] dfs_error(g, j)) is None
    &&& dfs_error(g, i) == Some(e)
}

/// What each error states of the hierarchy.
pub open spec fn error_holds(g: Seq<Seq<usize>>, e: C3Error) -> bool {
    match e {
        C3Error::Cycle { class } => class < g.len() && reaches_plus(g, class, class),
        C3Error::Inconsistent { class } => inconsistent_at(g, class),
    }
}

pub proof fn lemma_linearizations_pointwise(g: Seq<Seq<usize>>, bs: Seq<usize>, fuel: nat)
    ensures
        linearizations(g, bs, fuel) is Some <==> forall|t: int|
            0 <= t < bs.len() ==> (#[trigger] linearization(g, bs[t], fuel)) is Some,
        linearizations(g, bs, fuel) matches Some(xs) ==> {
            &&& xs.len() == bs.len()
            &&& forall|t: int|
                0 <= t < bs.len() ==> linearization(g, bs[t], fuel) == Some(#[trigger] xs[t])
        },
    decreases bs.len(),
{
    if bs.len() > 0 {
        let init = bs.drop_last();
        lemma_linearizations_pointwise(g, init, fuel);
        assert forall|t: int| 0 <= t < init.len() implies init[t] == bs[t] by {}
        if linearizations(g, bs, fuel) is Some {
            let xs = linearizations(g, bs, fuel)->0;
            assert forall|t: int| 0 <= t < bs.len() implies linearization(g, bs[t], fuel) == Some(
                #[trigger] xs[t],
            ) by {
                if t < bs.len() - 1 {
                    assert(init[t] == bs[t]);
                }
            }
        } else {
            if linearizations(g, init, fuel) is None {
                let t = choose|t: int|
                    0 <= t < init.len() && (#[trigger] linearization(g, init[t], fuel)) is None;
                assert(init[t] == bs[t]);
            } else {
                assert(linearization(g, bs[bs.len() - 1], fuel) is None);
            }
        }
    }
}

/// More fuel never changes a linearization that exists.
pub proof fn lemma_linearization_fuel(g: Seq<Seq<usize>>, i: usize, f1: nat, f2: nat)
    requires
        f1 <= f2,
        linearization(g, i, f1) is Some,
    ensures
        linearization(g, i, f2) == linearization(g, i, f1),
    decreases f1, 0nat,
{
    lemma_linearizations_fuel(g, g[i as int], (f1 - 1) as nat, (f2 - 1) as nat);
}

pub proof fn lemma_linearizations_fuel(g: Seq<Seq<usize>>, bs: Seq<usize>, f1: nat, f2: nat)
    requires
        f1 <= f2,
        linearizations(g, bs, f1) is Some,
    ensures
        linearizations(g, bs, f2) == linearizations(g, bs, f1),
    decreases f1, bs.len() + 1,
{
    if bs.len() > 0 {
        lemma_linearizations_fuel(g, bs.drop_last(), f1, f2);
        lemma_linearization_fuel(g, bs.last(), f1, f2);
    }
}

/// The linearizations of a list of classes agree, whatever fuel produced them.
pub proof fn lemma_linearizations_unique(g: Seq<Seq<usize>>, bs: Seq<usize>, f1: nat, f2: nat)
    requires
        linearizations(g, bs, f1) is Some,
        linearizations(g, bs, f2) is Some,
    ensures
        linearizations(g, bs, f1) == linearizations(g, bs, f2),
{
    if f1 <= f2 {
        lemma_linearizations_fuel(g, bs, f1, f2);
    } else {
        lemma_linearizations_fuel(g, bs, f2, f1);
    }
}

/// A linearization that exists needs those of the bases one level less deep.
pub proof fn lemma_linearization_edge(g: Seq<Seq<usize>>, a: usize, b: usize, fuel: nat)
    requires
        a < g.len(),
        g[a as int].contains(b),
        linearization(g, a, fuel) is Some,
    ensures
        fuel >= 1,
        linearization(g, b, (fuel - 1) as nat) is Some,
{
    lemma_linearizations_pointwise(g, g[a as int], (fuel - 1) as nat);
    let t = choose|t: int| 0 <= t < g[a as int].len() && g[a as int][t] == b;
    assert(linearization(g, g[a as int][t], (fuel - 1) as nat) is Some);
}

pub proof fn lemma_path_step(g: Seq<Seq<usize>>, p: Seq<usize>, k: int)
    requires
        is_path(g, p),
        0 <= k < p.len() - 1,
    ensures
        has_edge(g, p[k], p[k + 1]),
{
}

proof fn lemma_linearization_path(g: Seq<Seq<usize>>, p: Seq<usize>, fuel: nat)
    requires
        p.len() >= 1,
        is_path(g, p),
        linearization(g, p[0], fuel) is Some,
    ensures
        fuel >= p.len(),
        linearization(g, p[p.len() - 1], (fuel - (p.len() - 1)) as nat) is Some,
    decreases p.len(),
{
    if p.len() == 1 {
        assert(fuel >= 1);
    } else {
        let q = p.drop_last();
        assert forall|k: int| 0 <= k < q.len() - 1 implies #[trigger] has_edge(g, q[k], q[k + 1]) by {
            lemma_path_step(g, p, k);
        }
        lemma_linearization_path(g, q, fuel);
        let h = (fuel - (q.len() - 1)) as nat;
        lemma_path_step(g, p, p.len() - 2);
        lemma_linearization_edge(g, p[p.len() - 2], p[p.len() - 1], h);
    }
}

/// A class on an inheritance cycle has no linearization.
pub proof fn lemma_cycle_has_no_linearization(g: Seq<Seq<usize>>, c: usize, fuel: nat)
    requires
        reaches_plus(g, c, c),
    ensures
        linearization(g, c, fuel) is None,
    decreases fuel,
{
    if linearization(g, c, fuel) is Some {
        let p = choose|p: Seq<usize>|
            p.len() >= 2 && p[0] == c && p[p.len() - 1] == c && #[trigger] is_path(g, p);
        lemma_linearization_path(g, p, fuel);
        lemma_cycle_has_no_linearization(g, c, (fuel - (p.len() - 1)) as nat);
    }
}

/// A class whose bases cannot be merged has no linearization.
pub proof fn lemma_inconsistent_has_no_linearization(g: Seq<Seq<usize>>, c: usize, fuel: nat)
    requires
        inconsistent_at(g, c),
    ensures
        linearization(g, c, fuel) is None,
{
    if linearization(g, c, fuel) is Some {
        lemma_linearizations_unique(g, g[c as int], (fuel - 1) as nat, g.len());
    }
}

pub proof fn lemma_edge_reaches(g: Seq<Seq<usize>>, a: usize, b: usize)
    requires
        a < g.len(),
        g[a as int].contains(b),
    ensures
        reaches_plus(g, a, b),
{
    let p = seq![a, b];
    assert(is_path(g, p)) by {
        assert forall|k: int| 0 <= k < p.len() - 1 implies #[trigger] has_edge(g, p[k], p[k + 1]) by {
            assert(k == 0);
        }
    }
}

pub proof fn lemma_reaches_extend(g: Seq<Seq<usize>>, a: usize, b: usize, c: usize)
    requires
        reaches_plus(g, a, b),
        b < g.len(),
        g[b as int].contains(c),
    ensures
        reaches_plus(g, a, c),
{
    let p = choose|p: Seq<usize>|
        p.len() >= 2 && p[0] == a && p[p.len() - 1] == b && #[trigger] is_path(g, p);
    let q = p.push(c);
    assert(is_path(g, q)) by {
        assert forall|k: int| 0 <= k < q.len() - 1 implies #[trigger] has_edge(g, q[k], q[k + 1]) by {
            if k < p.len() - 1 {
                lemma_path_step(g, p, k);
            }
        }
    }
    assert(q[q.len() - 1] == c);
}


// ---------------------------------------------------------------------------
// Laws of the linearization
// ---------------------------------------------------------------------------

pub proof fn lemma_reaches_prepend(g: Seq<Seq<usize>>, a: usize, b: usize, e: usize)
    requires
        has_edge(g, a, b),
        reaches_plus(g, b, e),
    ensures
        reaches_plus(g, a, e),
{
    let p = choose|p: Seq<usize>|
        p.len() >= 2 && p[0] == b && p[p.len() - 1] == e && #[trigger] is_path(g, p);
    let q = seq![a] + p;
    assert(is_path(g, q)) by {
        assert forall|k: int| 0 <= k < q.len() - 1 implies #[trigger] has_edge(g, q[k], q[k + 1]) by {
            if k > 0 {
                lemma_path_step(g, p, k - 1);
                assert(q[k] == p[k - 1] && q[k + 1] == p[k]);
            }
        }
    }
    assert(q[q.len() - 1] == e);
}

pub proof fn lemma_reaches_first_step(g: Seq<Seq<usize>>, a: usize, e: usize) -> (b: usize)
    requires
        reaches_plus(g, a, e),
    ensures
        has_edge(g, a, b),
        b == e || reaches_plus(g, b, e),
{
    let p = choose|p: Seq<usize>|
        p.len() >= 2 && p[0] == a && p[p.len() - 1] == e && #[trigger] is_path(g, p);
    lemma_path_step(g, p, 0);
    let b = p[1];
    if p.len() > 2 {
        let q = p.drop_first();
        assert(is_path(g, q)) by {
            assert forall|k: int| 0 <= k < q.len() - 1 implies #[trigger] has_edge(g, q[k], q[k + 1]) by {
                lemma_path_step(g, p, k + 1);
            }
        }
        assert(q[q.len() - 1] == e);
    }
    b
}

/// The laws of the C3 linearization, for whatever fuel produced it: it starts with
/// the class, lists it and every class it inherits from (and nothing else) exactly
/// once, keeps the declaration order of the direct bases, and keeps the order of
/// the linearization of every direct base.
pub proof fn lemma_linearization_laws(g: Seq<Seq<usize>>, i: usize, fuel: nat)
    requires
        linearization(g, i, fuel) is Some,
    ensures
        ({
            let x = linearization(g, i, fuel)->0;
            &&& i < g.len()
            &&& x.len() >= 1
            &&& x[0] == i
            &&& x.no_duplicates()
            &&& forall|e: usize| #[trigger] x.contains(e) ==> e == i || reaches_plus(g, i, e)
            &&& forall|e: usize| reaches_plus(g, i, e) ==> #[trigger] x.contains(e)
            &&& is_subseq(g[i as int], x.drop_first())
            &&& forall|t: int|
                0 <= t < g[i as int].len() ==> #[trigger] linearization(
                    g,
                    g[i as int][t],
                    (fuel - 1) as nat,
                ) is Some && is_subseq(
                    linearization(g, g[i as int][t], (fuel - 1) as nat)->0,
                    x.drop_first(),
                )
        }),
    decreases fuel,
{
    let x = linearization(g, i, fuel)->0;
    let direct = g[i as int];
    let f1 = (fuel - 1) as nat;
    lemma_linearizations_pointwise(g, direct, f1);
    let subs = linearizations(g, direct, f1)->0;
    let seqs = subs.push(direct);
    let m = merged(seqs)->0;
    assert(x == seq![i] + m);
    assert(x.drop_first() =~= m);
    // order of the direct bases and of their linearizations
    lemma_merged_keeps_order(seqs, subs.len() as int);
    assert(seqs[subs.len() as int] == direct);
    assert forall|t: int| 0 <= t < direct.len() implies #[trigger] linearization(
        g,
        direct[t],
        f1,
    ) is Some && is_subseq(linearization(g, direct[t], f1)->0, x.drop_first()) by {
        assert(seqs[t] == subs[t]);
        lemma_merged_keeps_order(seqs, t);
    }
    // every item of the merge is inherited
    assert forall|e: usize| #[trigger] m.contains(e) implies reaches_plus(g, i, e) by {
        lemma_merged_items(seqs, e);
        let k = choose|k: int| 0 <= k < seqs.len() && (#[trigger] seqs[k]).contains(e);
        if k == subs.len() {
            assert(seqs[k] == direct);
            lemma_edge_reaches(g, i, e);
        } else {
            let b = direct[k];
            assert(seqs[k] == subs[k]);
            assert(direct.contains(b));
            lemma_linearization_laws(g, b, f1);
            let y = linearization(g, b, f1)->0;
            assert(y.contains(e));
            if e == b {
                lemma_edge_reaches(g, i, e);
            } else {
                lemma_reaches_prepend(g, i, b, e);
            }
        }
    }
    // every inherited class is in the merge
    assert forall|e: usize| reaches_plus(g, i, e) implies #[trigger] m.contains(e) by {
        let b = lemma_reaches_first_step(g, i, e);
        let t = choose|t: int| 0 <= t < direct.len() && direct[t] == b;
        if b == e {
            lemma_subseq_contains(direct, m, e);
        } else {
            lemma_linearization_laws(g, b, f1);
            let y = linearization(g, b, f1)->0;
            assert(y.contains(e));
            lemma_subseq_contains(y, m, e);
        }
    }
    // no duplicates
    lemma_merged_no_duplicates(seqs);
    if m.contains(i) {
        lemma_cycle_has_no_linearization(g, i, fuel);
    }
    assert forall|a: int, b: int| 0 <= a < x.len() && 0 <= b < x.len() && a != b implies x[a]
        != x[b] by {
        if a == 0 && b > 0 {
            assert(m[b - 1] == x[b]);
        } else if b == 0 && a > 0 {
            assert(m[a - 1] == x[a]);
        } else if a > 0 && b > 0 {
            assert(m[a - 1] == x[a] && m[b - 1] == x[b]);
        }
    }
    assert forall|e: usize| #[trigger] x.contains(e) implies e == i || reaches_plus(g, i, e) by {
        if e != i {
            let j = choose|j: int| 0 <= j < x.len() && x[j] == e;
            assert(m[j - 1] == e);
            assert(m.contains(e));
        }
    }
    assert forall|e: usize| reaches_plus(g, i, e) implies #[trigger] x.contains(e) by {
        assert(m.contains(e));
        let j = choose|j: int| 0 <= j < m.len() && m[j] == e;
        assert(x[j + 1] == e);
    }
}

/// The laws of the method resolution order of a class that has one (see
/// `lemma_linearization_laws`), stated over the orders of its direct bases.
pub proof fn lemma_mro_laws(g: Seq<Seq<usize>>, i: usize)
    requires
        mro_of(g, i) is Some,
    ensures
        ({
            let x = mro_of(g, i)->0;
            &&& i < g.len()
            &&& x.len() >= 1
            &&& x[0] == i
            &&& x.no_duplicates()
            &&& forall|e: usize| #[trigger] x.contains(e) <==> e == i || reaches_plus(g, i, e)
            &&& is_subseq(g[i as int], x.drop_first())
            &&& forall|t: int|
                0 <= t < g[i as int].len() ==> #[trigger] mro_of(g, g[i as int][t]) is Some
                    && is_subseq(mro_of(g, g[i as int][t])->0, x.drop_first())
        }),
{
    lemma_linearization_laws(g, i, g.len());
    let x = mro_of(g, i)->0;
    assert forall|e: usize| #[trigger] x.contains(e) <==> e == i || reaches_plus(g, i, e) by {
        if e == i {
            assert(x[0] == i);
        }
    }
    assert forall|t: int| 0 <= t < g[i as int].len() implies #[trigger] mro_of(g, g[i as int][t]) is Some
        && is_subseq(mro_of(g, g[i as int][t])->0, x.drop_first()) by {
        let b = g[i as int][t];
        assert(linearization(g, b, (g.len() - 1) as nat) is Some);
        lemma_linearization_fuel(g, b, (g.len() - 1) as nat, g.len());
    }
}

proof fn lemma_reaches_trans(g: Seq<Seq<usize>>, a: usize, b: usize, c: usize)
    requires
        reaches_plus(g, a, b),
        reaches_plus(g, b, c),
    ensures
        reaches_plus(g, a, c),
{
    let p = choose|p: Seq<usize>|
        p.len() >= 2 && p[0] == a && p[p.len() - 1] == b && #[trigger] is_path(g, p);
    let q = choose|q: Seq<usize>|
        q.len() >= 2 && q[0] == b && q[q.len() - 1] == c && #[trigger] is_path(g, q);
    let r = p + q.drop_first();
    assert(is_path(g, r)) by {
        assert forall|k: int| 0 <= k < r.len() - 1 implies #[trigger] has_edge(g, r[k], r[k + 1]) by {
            if k < p.len() - 1 {
                lemma_path_step(g, p, k);
            } else {
                let m = k - (p.len() - 1);
                lemma_path_step(g, q, m);
                assert(r[k] == q[m]);
                assert(r[k + 1] == q[m + 1]);
            }
        }
    }
    assert(r[r.len() - 1] == c);
}

/// A walk that enters a class with a linearization, from which no class being
/// visited can be reached, meets no error.
proof fn lemma_walk_clean(g: Seq<Seq<usize>>, visiting: Set<usize>, i: usize, fuel: nat, f: nat)
    requires
        linearization(g, i, f) is Some,
        forall|v: usize| #[trigger] visiting.contains(v) ==> v != i && !reaches_plus(g, i, v),
    ensures
        walk_error(g, visiting, i, fuel) is None,
    decreases fuel, 0nat,
{
    if fuel > 0 && i < g.len() {
        let vs = visiting.insert(i);
        let bs = g[i as int];
        assert forall|t: int| 0 <= t < bs.len() implies {
            &&& linearization(g, #[trigger] bs[t], (f - 1) as nat) is Some
            &&& forall|v: usize| #[trigger] vs.contains(v) ==> v != bs[t] && !reaches_plus(g, bs[t], v)
        } by {
            let c = bs[t];
            assert(bs.contains(c));
            lemma_linearization_edge(g, i, c, f);
            lemma_edge_reaches(g, i, c);
            assert forall|v: usize| #[trigger] vs.contains(v) implies v != c && !reaches_plus(g, c, v) by {
                if reaches_plus(g, c, v) {
                    lemma_reaches_trans(g, i, c, v);
                }
                if v == i {
                    if c == i || reaches_plus(g, c, v) {
                        lemma_cycle_has_no_linearization(g, i, f);
                    }
                }
            }
        }
        lemma_bases_walk_clean(g, vs, bs, (fuel - 1) as nat, (f - 1) as nat);
        if inconsistent_at(g, i) {
            lemma_inconsistent_has_no_linearization(g, i, f);
        }
    }
}

proof fn lemma_bases_walk_clean(g: Seq<Seq<usize>>, visiting: Set<usize>, bs: Seq<usize>, fuel: nat, f: nat)
    requires
        forall|t: int| 0 <= t < bs.len() ==> {
            &&& linearization(g, #[trigger] bs[t], f) is Some
            &&& forall|v: usize| #[trigger] visiting.contains(v) ==> v != bs[t] && !reaches_plus(g, bs[t], v)
        },
    ensures
        bases_walk_error(g, visiting, bs, fuel) is None,
    decreases fuel, bs.len() + 1,
{
    if bs.len() > 0 {
        let t = bs.len() - 1;
        assert(linearization(g, bs[t], f) is Some);
        lemma_bases_walk_clean(g, visiting, bs.drop_last(), fuel, f);
        lemma_walk_clean(g, visiting, bs.last(), fuel, f);
    }
}

/// Once a prefix of the bases fails, the walk over all of them fails the same way.
proof fn lemma_bases_walk_prefix(g: Seq<Seq<usize>>, visiting: Set<usize>, bs: Seq<usize>, k: int, fuel: nat)
    requires
        0 <= k <= bs.len(),
        bases_walk_error(g, visiting, bs.subrange(0, k), fuel) is Some,
    ensures
        bases_walk_error(g, visiting, bs, fuel) == bases_walk_error(g, visiting, bs.subrange(0, k), fuel),
    decreases bs.len(),
{
    if k == bs.len() {
        assert(bs.subrange(0, k) =~= bs);
    } else {
        assert(bs.drop_last().subrange(0, k) =~= bs.subrange(0, k));
        lemma_bases_walk_prefix(g, visiting, bs.drop_last(), k, fuel);
    }
}

// ---------------------------------------------------------------------------
// Depth-first computation of every linearization
// ---------------------------------------------------------------------------

#[derive(Clone, Copy, PartialEq, Eq, Structural)]
enum VisitState {
    Unvisited,
    Visiting,
    Done,
}

spec fn count_state(s: Seq<VisitState>, st: VisitState) -> nat
    decreases s.len(),
{
    if s.len() == 0 {
        0
    } else {
        count_state(s.drop_last(), st) + if s.last() == st {
            1nat
        } else {
            0nat
        }
    }
}

proof fn lemma_count_le(s1: Seq<VisitState>, s2: Seq<VisitState>, st: VisitState)
    requires
        s1.len() == s2.len(),
        forall|j: int| 0 <= j < s1.len() && s1[j] == st ==> s2[j] == st,
    ensures
        count_state(s1, st) <= count_state(s2, st),
        (exists|j: int| 0 <= j < s1.len() && s1[j] != st && s2[j] == st) ==> count_state(s1, st)
            < count_state(s2, st),
    decreases s1.len(),
{
    if s1.len() > 0 {
        let a = s1.drop_last();
        let b = s2.drop_last();
        assert forall|j: int| 0 <= j < a.len() && a[j] == st implies b[j] == st by {
            assert(s1[j] == st);
        }
        lemma_count_le(a, b, st);
        if exists|j: int| 0 <= j < s1.len() && s1[j] != st && s2[j] == st {
            let j = choose|j: int| 0 <= j < s1.len() && s1[j] != st && s2[j] == st;
            if j < s1.len() - 1 {
                assert(a[j] != st && b[j] == st);
            }
        }
    }
}

proof fn lemma_count_update(s: Seq<VisitState>, i: int, v: VisitState, st: VisitState)
    requires
        0 <= i < s.len(),
    ensures
        count_state(s.update(i, v), st) + (if s[i] == st { 1nat } else { 0nat }) == count_state(s, st)
            + (if v == st { 1nat } else { 0nat }),
    decreases s.len(),
{
    let u = s.update(i, v);
    if i < s.len() - 1 {
        assert(u.drop_last() =~= s.drop_last().update(i, v));
        lemma_count_update(s.drop_last(), i, v, st);
    } else {
        assert(u.drop_last() =~= s.drop_last());
    }
}

proof fn lemma_count_bound(s: Seq<VisitState>, st: VisitState)
    ensures
        count_state(s, st) <= s.len(),
        (exists|j: int| 0 <= j < s.len() && s[j] != st) ==> count_state(s, st) < s.len(),
        (forall|j: int| 0 <= j < s.len() ==> s[j] == st) ==> count_state(s, st) == s.len(),
    decreases s.len(),
{
    if s.len() > 0 {
        let a = s.drop_last();
        lemma_count_bound(a, st);
        if exists|j: int| 0 <= j < s.len() && s[j] != st {
            let j = choose|j: int| 0 <= j < s.len() && s[j] != st;
            if j < s.len() - 1 {
                assert(a[j] != st);
            }
        }
        if forall|j: int| 0 <= j < s.len() ==> s[j] == st {
            assert forall|j: int| 0 <= j < a.len() implies a[j] == st by {
                assert(s[j] == st);
            }
        }
    }
}

/// Every finished class holds its linearization, computed with as many levels as
/// there are finished classes.
spec fn done_inv(g: Seq<Seq<usize>>, state: Seq<VisitState>, mros: Seq<Vec<usize>>) -> bool {
    &&& state.len() == g.len()
    &&& mros.len() == g.len()
    &&& forall|v: usize|
        v < g.len() && state[v as int] == VisitState::Done ==> linearization(
            g,
            v,
            count_state(state, VisitState::Done),
        ) == Some(#[trigger] mros[v as int]@)
}

proof fn lemma_done_inv_grows(
    g: Seq<Seq<usize>>,
    s1: Seq<VisitState>,
    m1: Seq<Vec<usize>>,
    s2: Seq<VisitState>,
    m2: Seq<Vec<usize>>,
)
    requires
        done_inv(g, s1, m1),
        s2.len() == g.len(),
        m2.len() == g.len(),
        count_state(s1, VisitState::Done) <= count_state(s2, VisitState::Done),
        forall|v: int|
            0 <= v < g.len() && s2[v] == VisitState::Done ==> s1[v] == VisitState::Done && m2[v]
                == m1[v],
    ensures
        done_inv(g, s2, m2),
{
    assert forall|v: usize|
        v < g.len() && s2[v as int] == VisitState::Done implies linearization(
        g,
        v,
        count_state(s2, VisitState::Done),
    ) == Some(#[trigger] m2[v as int]@) by {
        assert(m2[v as int] == m1[v as int]);
        assert(linearization(g, v, count_state(s1, VisitState::Done)) == Some(m1[v as int]@));
        lemma_linearization_fuel(
            g,
            v,
            count_state(s1, VisitState::Done),
            count_state(s2, VisitState::Done),
        );
    }
}

pub(crate) fn copy_vec(v: &Vec<usize>) -> (res: Vec<usize>)
    ensures
        res@ == v@,
{
    let mut res: Vec<usize> = Vec::new();
    let mut k: usize = 0;
    while k < v.len()
        invariant
            k <= v.len(),
            res@ == v@.subrange(0, k as int),
        decreases v.len() - k,
    {
        res.push(v[k]);
        k = k + 1;
        assert(res@ =~= v@.subrange(0, k as int));
    }
    assert(v@.subrange(0, v@.len() as int) =~= v@);
    res
}

/// The state of the depth-first walk when it starts at `index`: every finished
/// class holds its linearization, and every class still being visited inherits
/// from `index`.
spec fn walk_ready(g: Seq<Seq<usize>>, state: Seq<VisitState>, mros: Seq<Vec<usize>>, index: usize) -> bool {
    &&& done_inv(g, state, mros)
    &&& forall|v: int|
        0 <= v < g.len() && state[v] == VisitState::Visiting ==> reaches_plus(g, v as usize, index)
}

/// The classes still being visited.
spec fn visiting_set(s: Seq<VisitState>) -> Set<usize> {
    Set::new(|v: usize| (v as int) < s.len() && s[v as int] == VisitState::Visiting)
}

/// How many levels the walk can still go down: one per class not being visited.
spec fn walk_fuel(s: Seq<VisitState>) -> nat {
    (s.len() - count_state(s, VisitState::Visiting)) as nat
}

proof fn lemma_count_zero(s: Seq<VisitState>, st: VisitState)
    requires
        forall|j: int| 0 <= j < s.len() ==> s[j] != st,
    ensures
        count_state(s, st) == 0,
    decreases s.len(),
{
    if s.len() > 0 {
        lemma_count_zero(s.drop_last(), st);
    }
}

fn linearize(
    index: usize,
    bases: &[Vec<usize>],
    state: &mut Vec<VisitState>,
    mros: &mut Vec<Vec<usize>>,
) -> (res: Result<Vec<usize>, C3Error>)
    requires
        well_formed(seqs_view(bases@)),
        index < bases@.len(),
        old(state)@.len() == bases@.len(),
        old(mros)@.len() == bases@.len(),
    ensures
        final(state)@.len() == bases@.len(),
        final(mros)@.len() == bases@.len(),
        walk_ready(seqs_view(bases@), old(state)@, old(mros)@, index) ==> done_inv(
            seqs_view(bases@),
            final(state)@,
            final(mros)@,
        ),
        forall|v: int|
            0 <= v < bases@.len() && old(state)@[v] == VisitState::Done ==> final(state)@[v]
                == VisitState::Done && final(mros)@[v] == old(mros)@[v],
        forall|v: int|
            0 <= v < bases@.len() && old(state)@[v] == VisitState::Visiting ==> final(state)@[v]
                == VisitState::Visiting,
        forall|v: int|
            0 <= v < bases@.len() && old(state)@[v] != VisitState::Unvisited ==> final(state)@[v]
                != VisitState::Unvisited,
        old(state)@[index as int] == VisitState::Visiting ==> res == Err::<Vec<usize>, C3Error>(
            C3Error::Cycle { class: index },
        ),
        old(state)@[index as int] == VisitState::Done ==> (res matches Ok(r) && r@ == old(mros)@[index as int]@),
        old(state)@[index as int] != VisitState::Unvisited ==> final(state)@ == old(state)@ && final(mros)@
            == old(mros)@,
        old(state)@[index as int] == VisitState::Unvisited ==> (res matches Ok(r) ==> r@.len() >= 1 && r@[0]
            == index),
        res matches Ok(r) ==> {
            &&& final(state)@[index as int] == VisitState::Done
            &&& final(mros)@[index as int]@ == r@
            &&& forall|v: int|
                0 <= v < bases@.len() && final(state)@[v] == VisitState::Visiting
                    ==> old(state)@[v] == VisitState::Visiting
        },
        res matches Err(e) ==> walk_ready(seqs_view(bases@), old(state)@, old(mros)@, index) ==> error_holds(
            seqs_view(bases@),
            e,
        ),
        res matches Err(e) ==> error_class(e) == index || reaches_plus(seqs_view(bases@), index, error_class(e)),
        walk_ready(seqs_view(bases@), old(state)@, old(mros)@, index) ==> match res {
            Ok(_) => walk_error(seqs_view(bases@), visiting_set(old(state)@), index, walk_fuel(old(state)@)) is None,
            Err(e) => walk_error(seqs_view(bases@), visiting_set(old(state)@), index, walk_fuel(old(state)@))
                == Some(e),
        },
    decreases count_state(old(state)@, VisitState::Unvisited),
{
    let ghost g = seqs_view(bases@);
    let ghost n = bases@.len();
    let ghost ready = walk_ready(g, old(state)@, old(mros)@, index);
    let ghost vset = visiting_set(old(state)@);
    let ghost fuel = walk_fuel(old(state)@);
    match state[index] {
        VisitState::Done => {
            proof {
                if ready {
                    let f = count_state(old(state)@, VisitState::Done);
                    assert(linearization(g, index, f) == Some(old(mros)@[index as int]@));
                    assert forall|v: usize| #[trigger] vset.contains(v) implies v != index
                        && !reaches_plus(g, index, v) by {
                        assert(old(state)@[v as int] == VisitState::Visiting);
                        if reaches_plus(g, index, v) {
                            lemma_reaches_trans(g, index, v, index);
                            lemma_cycle_has_no_linearization(g, index, f);
                        }
                    }
                    lemma_walk_clean(g, vset, index, fuel, f);
                }
            }
            return Ok(copy_vec(&mros[index]));
        },
        VisitState::Visiting => {
            proof {
                if ready {
                    assert(reaches_plus(g, index, index));
                }
                assert(vset.contains(index));
            }
            return Err(C3Error::Cycle { class: index });
        },
        VisitState::Unvisited => {},
    }
    proof {
        assert(!vset.contains(index));
        lemma_count_bound(old(state)@, VisitState::Visiting);
        assert(old(state)@[index as int] != VisitState::Visiting);
        assert(fuel >= 1);
    }
    let ghost inner = vset.insert(index);
    let ghost entry_state = state@;
    let ghost entry_mros = mros@;
    assert(entry_state == old(state)@);
    state.set(index, VisitState::Visiting);
    proof {
        lemma_count_update(entry_state, index as int, VisitState::Visiting, VisitState::Done);
        lemma_count_update(entry_state, index as int, VisitState::Visiting, VisitState::Unvisited);
        lemma_count_update(entry_state, index as int, VisitState::Visiting, VisitState::Visiting);
        assert(visiting_set(state@) =~= inner);
        assert(bases_walk_error(g, inner, g[index as int].subrange(0, 0), (fuel - 1) as nat) is None);
        if ready {
            lemma_done_inv_grows(g, entry_state, entry_mros, state@, mros@);
        }
    }
    let direct = &bases[index];
    assert(g[index as int] == direct@);
    let mut sequences: Vec<Vec<usize>> = Vec::new();
    let mut t: usize = 0;
    while t < direct.len()
        invariant
            g == seqs_view(bases@),
            n == bases@.len(),
            well_formed(g),
            index < n,
            g[index as int] == direct@,
            t <= direct@.len(),
            state@.len() == n,
            mros@.len() == n,
            ready == walk_ready(g, entry_state, entry_mros, index),
            ready ==> done_inv(g, state@, mros@),
            state@[index as int] == VisitState::Visiting,
            entry_state[index as int] == VisitState::Unvisited,
            entry_state.len() == n,
            entry_state == old(state)@,
            entry_mros == old(mros)@,
            ready ==> forall|v: int|
                0 <= v < n && state@[v] == VisitState::Visiting ==> v == index || reaches_plus(
                    g,
                    v as usize,
                    index,
                ),
            forall|v: int|
                0 <= v < n && state@[v] == VisitState::Visiting ==> entry_state[v]
                    == VisitState::Visiting || v == index,
            forall|v: int|
                0 <= v < n && entry_state[v] == VisitState::Done ==> state@[v] == VisitState::Done
                    && mros@[v] == entry_mros[v],
            forall|v: int|
                0 <= v < n && v != index && entry_state[v] == VisitState::Visiting ==> state@[v]
                    == VisitState::Visiting,
            forall|v: int|
                0 <= v < n && entry_state[v] != VisitState::Unvisited ==> state@[v]
                    != VisitState::Unvisited,
            sequences@.len() == t,
            vset == visiting_set(entry_state),
            inner == vset.insert(index),
            fuel == walk_fuel(entry_state),
            fuel >= 1,
            visiting_set(state@) == inner,
            count_state(state@, VisitState::Visiting) == count_state(entry_state, VisitState::Visiting) + 1,
            ready ==> bases_walk_error(g, inner, direct@.subrange(0, t as int), (fuel - 1) as nat) is None,
            ready ==> forall|s: int|
                0 <= s < t ==> linearization(
                    g,
                    direct@[s],
                    count_state(state@, VisitState::Done),
                ) == Some(#[trigger] sequences@[s]@),
        decreases direct@.len() - t,
    {
        let base = direct[t];
        assert(base < n);
        proof {
            assert(direct@.contains(base)) by {
                assert(direct@[t as int] == base);
            }
            if ready {
                assert forall|v: int|
                    0 <= v < n && state@[v] == VisitState::Visiting implies reaches_plus(
                    g,
                    v as usize,
                    base,
                ) by {
                    if v == index {
                        lemma_edge_reaches(g, index, base);
                    } else {
                        lemma_reaches_extend(g, v as usize, index, base);
                    }
                }
                assert(walk_ready(g, state@, mros@, base));
            }
            assert forall|v: int|
                0 <= v < n && state@[v] == VisitState::Unvisited implies entry_state[v]
                == VisitState::Unvisited by {}
            assert(state@[index as int] != VisitState::Unvisited
                && entry_state[index as int] == VisitState::Unvisited);
            lemma_count_le(state@, entry_state, VisitState::Unvisited);
            assert(count_state(state@, VisitState::Unvisited) < count_state(entry_state, VisitState::Unvisited));
        }
        proof {
            lemma_count_bound(state@, VisitState::Visiting);
            assert(walk_fuel(state@) == (fuel - 1) as nat);
        }
        let ghost before_state = state@;
        let ghost before_mros = mros@;
        let sub = linearize(base, bases, state, mros);
        let sub = match sub {
            Ok(r) => r,
            Err(e) => {
                assert forall|v: int|
                    0 <= v < n && entry_state[v] != VisitState::Unvisited implies state@[v]
                    != VisitState::Unvisited by {
                    assert(before_state[v] != VisitState::Unvisited);
                }
                proof {
                    lemma_edge_reaches(g, index, base);
                    if error_class(e) != base {
                        lemma_reaches_prepend(g, index, base, error_class(e));
                    }
                    if ready {
                        assert(walk_error(g, inner, base, (fuel - 1) as nat) == Some(e));
                        let pre = direct@.subrange(0, t + 1);
                        assert(pre.drop_last() =~= direct@.subrange(0, t as int));
                        assert(pre.last() == base);
                        assert(bases_walk_error(g, inner, pre, (fuel - 1) as nat) == Some(e));
                        lemma_bases_walk_prefix(g, inner, direct@, t + 1, (fuel - 1) as nat);
                        assert(walk_error(g, vset, index, fuel) == Some(e));
                    }
                }
                return Err(e);
            },
        };
        proof {
            assert forall|v: int|
                0 <= v < n && before_state[v] == VisitState::Done implies state@[v]
                == VisitState::Done by {}
            lemma_count_le(before_state, state@, VisitState::Done);
            if ready {
            assert forall|s: int| 0 <= s < t implies linearization(
                g,
                direct@[s],
                count_state(state@, VisitState::Done),
            ) == Some(#[trigger] sequences@[s]@) by {
                assert(linearization(g, direct@[s], count_state(before_state, VisitState::Done))
                    == Some(sequences@[s]@));
                lemma_linearization_fuel(
                    g,
                    direct@[s],
                    count_state(before_state, VisitState::Done),
                    count_state(state@, VisitState::Done),
                );
            }
            }
            assert(base != index);
            assert(mros@[base as int]@ == sub@);
            assert forall|v: int| 0 <= v < n && state@[v] == VisitState::Visiting implies before_state[v]
                == VisitState::Visiting by {}
            assert forall|v: int| 0 <= v < n && before_state[v] == VisitState::Visiting implies state@[v]
                == VisitState::Visiting by {}
            lemma_count_le(before_state, state@, VisitState::Visiting);
            lemma_count_le(state@, before_state, VisitState::Visiting);
            assert(visiting_set(state@) =~= visiting_set(before_state));
            if ready {
                assert(walk_error(g, inner, base, (fuel - 1) as nat) is None);
                let pre = direct@.subrange(0, t + 1);
                assert(pre.drop_last() =~= direct@.subrange(0, t as int));
                assert(pre.last() == base);
            }
        }
        sequences.push(sub);
        t = t + 1;
    }
    let ghost k = count_state(state@, VisitState::Done);
    proof {
        if ready {
        assert forall|s: int| 0 <= s < direct@.len() implies (#[trigger] linearization(
            g,
            direct@[s],
            k,
        )) is Some by {
            assert(linearization(g, direct@[s], k) == Some(sequences@[s]@));
        }
        lemma_linearizations_pointwise(g, direct@, k);
        let subs = linearizations(g, direct@, k)->0;
        assert forall|s: int| 0 <= s < direct@.len() implies #[trigger] seqs_view(sequences@)[s] == subs[s] by {
            assert(linearization(g, direct@[s], k) == Some(sequences@[s]@));
        }
        assert(seqs_view(sequences@) =~= subs);
        }
        lemma_count_bound(state@, VisitState::Done);
    }
    let ghost subs = seqs_view(sequences@);
    assert(ready ==> linearizations(g, direct@, k) == Some(subs));
    assert(direct@.subrange(0, direct@.len() as int) =~= direct@);
    assert(ready ==> bases_walk_error(g, inner, g[index as int], (fuel - 1) as nat) is None);
    sequences.push(copy_vec(direct));
    assert(seqs_view(sequences@) =~= subs.push(g[index as int]));
    let merged_tail = match merge(sequences) {
        Some(m) => m,
        None => {
            proof {
                if ready {
                    lemma_linearizations_fuel(g, direct@, k, n as nat);
                    assert(inconsistent_at(g, index));
                }
            }
            return Err(C3Error::Inconsistent { class: index });
        },
    };
    proof {
        if ready {
            lemma_linearizations_fuel(g, direct@, k, n as nat);
            assert(!inconsistent_at(g, index));
        }
    }
    let mut result: Vec<usize> = Vec::new();
    result.push(index);
    let mut rest = merged_tail;
    result.append(&mut rest);
    assert(result@ =~= seq![index] + merged_tail@);
    assert(ready ==> linearization(g, index, k + 1) == Some(result@)) by {
        if ready {
            assert(merged(subs.push(g[index as int])) == Some(merged_tail@));
            assert(((k + 1) - 1) as nat == k);
        }
    }
    let ghost mid_state = state@;
    let ghost mid_mros = mros@;
    state.set(index, VisitState::Done);
    mros.set(index, copy_vec(&result));
    proof {
        lemma_count_update(mid_state, index as int, VisitState::Done, VisitState::Done);
        lemma_count_update(mid_state, index as int, VisitState::Done, VisitState::Unvisited);
        if ready {
        assert forall|v: usize|
            v < n && state@[v as int] == VisitState::Done implies linearization(
            g,
            v,
            count_state(state@, VisitState::Done),
        ) == Some(#[trigger] mros@[v as int]@) by {
            if v != index {
                assert(mid_state[v as int] == VisitState::Done);
                assert(linearization(g, v, k) == Some(mid_mros[v as int]@));
                lemma_linearization_fuel(g, v, k, k + 1);
            }
        }
        }
    }
    Ok(result)
}

/// Computes the C3 method resolution order of every class. `bases[i]` lists the
/// direct bases of class `i` in declaration order.
pub fn linearize_all(bases: &[Vec<usize>]) -> (res: Result<Vec<Vec<usize>>, C3Error>)
    requires
        well_formed(seqs_view(bases@)),
    ensures
        res is Ok <==> forall|i: usize|
            i < bases@.len() ==> (#[trigger] mro_of(seqs_view(bases@), i)) is Some,
        res matches Ok(mros) ==> {
            &&& mros@.len() == bases@.len()
            &&& forall|i: usize|
                i < bases@.len() ==> mro_of(seqs_view(bases@), i) == Some(
                    #[trigger] mros@[i as int]@,
                )
        },
        res matches Err(e) ==> error_holds(seqs_view(bases@), e),
        res is Ok ==> forall|i: usize| i < bases@.len() ==> (#[trigger] dfs_error(seqs_view(bases@), i)) is None,
        res matches Err(e) ==> exists|i: usize| #[trigger] first_dfs_error(seqs_view(bases@), i, e),
{
    let ghost g = seqs_view(bases@);
    let n = bases.len();
    let mut state: Vec<VisitState> = Vec::new();
    let mut mros: Vec<Vec<usize>> = Vec::new();
    let mut k: usize = 0;
    while k < n
        invariant
            n == bases@.len(),
            k <= n,
            state@.len() == k,
            mros@.len() == k,
            forall|j: int| 0 <= j < k ==> state@[j] == VisitState::Unvisited,
        decreases n - k,
    {
        state.push(VisitState::Unvisited);
        mros.push(Vec::new());
        k = k + 1;
    }
    let mut index: usize = 0;
    while index < n
        invariant
            g == seqs_view(bases@),
            n == bases@.len(),
            well_formed(g),
            index <= n,
            done_inv(g, state@, mros@),
            forall|j: int| 0 <= j < n ==> state@[j] != VisitState::Visiting,
            forall|j: int| 0 <= j < index ==> state@[j] == VisitState::Done,
            forall|j: usize| j < index ==> (#[trigger] dfs_error(g, j)) is None,
        decreases n - index,
    {
        let ghost pre_state = state@;
        let ghost pre_mros = mros@;
        proof {
            lemma_count_zero(pre_state, VisitState::Visiting);
            assert(visiting_set(pre_state) =~= Set::<usize>::empty());
            assert(walk_fuel(pre_state) == n);
            assert(walk_ready(g, pre_state, pre_mros, index));
        }
        let r = linearize(index, bases, &mut state, &mut mros);
        match r {
            Ok(_) => {
                assert(dfs_error(g, index) is None);
            },
            Err(e) => {
                proof {
                    lemma_count_bound(pre_state, VisitState::Done);
                    assert forall|j: usize| j < index implies (#[trigger] mro_of(g, j)) is Some by {
                        assert(pre_state[j as int] == VisitState::Done);
                        assert(linearization(g, j, count_state(pre_state, VisitState::Done)) == Some(pre_mros[j as int]@));
                        lemma_linearization_fuel(g, j, count_state(pre_state, VisitState::Done), n as nat);
                    }
                    assert(dfs_error(g, index) == Some(e));
                    assert(first_dfs_error(g, index, e));
                    match e {
                        C3Error::Cycle { class } => {
                            lemma_cycle_has_no_linearization(g, class, n as nat);
                            assert(mro_of(g, class) is None);
                        },
                        C3Error::Inconsistent { class } => {
                            lemma_inconsistent_has_no_linearization(g, class, n as nat);
                            assert(mro_of(g, class) is None);
                        },
                    }
                }
                return Err(e);
            },
        }
        index = index + 1;
    }
    proof {
        lemma_count_bound(state@, VisitState::Done);
        assert(count_state(state@, VisitState::Done) == n);
        assert forall|i: usize| i < n implies mro_of(g, i) == Some(#[trigger] mros@[i as int]@) by {
            assert(state@[i as int] == VisitState::Done);
        }
        assert forall|i: usize| i < n implies (#[trigger] mro_of(g, i)) is Some by {
            assert(mro_of(g, i) == Some(mros@[i as int]@));
        }
    }
    Ok(mros)
}

} // verus!
