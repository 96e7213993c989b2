//! Selections of handles out of a roster, as plain sequences.

use vstd::prelude::*;

use crate::entity::{Boid, EntityType, Handle};

verus! {

/// The arena holds a boid under `h`.
pub open spec fn is_live(entries: Map<(u32, u32), Boid>, h: Handle) -> bool {
    entries.dom().contains(h.key())
}

/// `h` is live and its boid is of species `kind`.
pub open spec fn is_of_kind(entries: Map<(u32, u32), Boid>, h: Handle, kind: EntityType) -> bool {
    is_live(entries, h) && entries[h.key()].e_type == kind
}

/// `h` is live, alive, and of species `kind`.
pub open spec fn is_alive_of_kind(entries: Map<(u32, u32), Boid>, h: Handle, kind: EntityType) -> bool {
    is_of_kind(entries, h, kind) && entries[h.key()].is_alive
}

/// `h` is live and alive.
pub open spec fn is_alive(entries: Map<(u32, u32), Boid>, h: Handle) -> bool {
    is_live(entries, h) && entries[h.key()].is_alive
}

/// The elements of `s` that satisfy `p`, in their order in `s`.
pub open spec fn select<A>(s: Seq<A>, p: spec_fn(A) -> bool) -> Seq<A>
    decreases s.len(),
{
    if s.len() == 0 {
        Seq::empty()
    } else {
        let prev = select(s.drop_last(), p);
        if p(s.last()) {
            prev.push(s.last())
        } else {
            prev
        }
    }
}

/// The handles of `s` whose boids are of species `kind`.
pub open spec fn of_kind(s: Seq<Handle>, entries: Map<(u32, u32), Boid>, kind: EntityType) -> Seq<Handle> {
    select(s, |h: Handle| is_of_kind(entries, h, kind))
}

/// The handles of `s` whose boids are alive and of species `kind`.
pub open spec fn alive_of_kind(s: Seq<Handle>, entries: Map<(u32, u32), Boid>, kind: EntityType) -> Seq<Handle> {
    select(s, |h: Handle| is_alive_of_kind(entries, h, kind))
}

/// One step of a selection over the prefixes of `s`.
pub proof fn lemma_select_step<A>(s: Seq<A>, p: spec_fn(A) -> bool, i: int)
    requires
        0 <= i < s.len(),
    ensures
        select(s.take(i + 1), p) == (if p(s[i]) {
            select(s.take(i), p).push(s[i])
        } else {
            select(s.take(i), p)
        }),
{
    assert(s.take(i + 1).drop_last() =~= s.take(i));
}

/// A selection is a subsequence: each selected handle satisfies `p` and
/// occurs in `s`, and there are at most as many.
pub proof fn lemma_select_sound<A>(s: Seq<A>, p: spec_fn(A) -> bool)
    ensures
        select(s, p).len() <= s.len(),
        forall|i: int| 0 <= i < select(s, p).len() ==> p(#[trigger] select(s, p)[i]),
        forall|i: int| 0 <= i < select(s, p).len() ==> s.contains(#[trigger] select(s, p)[i]),
    decreases s.len(),
{
    if s.len() > 0 {
        lemma_select_sound(s.drop_last(), p);
        let prev = select(s.drop_last(), p);
        assert forall|i: int| 0 <= i < select(s, p).len() implies s.contains(#[trigger] select(s, p)[i]) by {
            if i < prev.len() {
                let j = choose|j: int| 0 <= j < s.drop_last().len() && s.drop_last()[j] == prev[i];
                assert(s[j] == prev[i]);
            } else {
                assert(s[s.len() - 1] == s.last());
            }
        }
    }
}

/// When every handle of `s` satisfies exactly one of `p` and `q`, the two
/// selections share out all of `s`.
pub proof fn lemma_select_partition<A>(s: Seq<A>, p: spec_fn(A) -> bool, q: spec_fn(A) -> bool)
    requires
        forall|i: int| 0 <= i < s.len() ==> (p(#[trigger] s[i]) <==> !q(s[i])),
    ensures
        select(s, p).len() + select(s, q).len() == s.len(),
    decreases s.len(),
{
    if s.len() > 0 {
        let t = s.drop_last();
        assert forall|i: int| 0 <= i < t.len() implies (p(#[trigger] t[i]) <==> !q(t[i])) by {
            assert(t[i] == s[i]);
        }
        lemma_select_partition(t, p, q);
        assert(p(s[s.len() - 1]) <==> !q(s[s.len() - 1]));
    }
}

/// When the handles of `s` that satisfy `p` are exactly its first `m`, the
/// selection has `m` handles.
pub proof fn lemma_select_leading<A>(s: Seq<A>, p: spec_fn(A) -> bool, m: int)
    requires
        0 <= m <= s.len(),
        forall|i: int| 0 <= i < m ==> p(#[trigger] s[i]),
        forall|i: int| m <= i < s.len() ==> !p(#[trigger] s[i]),
    ensures
        select(s, p).len() == m,
    decreases s.len(),
{
    if s.len() > 0 {
        let t = s.drop_last();
        if m == s.len() {
            assert forall|i: int| 0 <= i < t.len() implies p(#[trigger] t[i]) by {
                assert(t[i] == s[i]);
            }
            lemma_select_leading(t, p, m - 1);
            assert(p(s[s.len() - 1]));
        } else {
            assert forall|i: int| 0 <= i < m implies p(#[trigger] t[i]) by {
                assert(t[i] == s[i]);
            }
            assert forall|i: int| m <= i < t.len() implies !p(#[trigger] t[i]) by {
                assert(t[i] == s[i]);
            }
            lemma_select_leading(t, p, m);
            assert(!p(s[s.len() - 1]));
        }
    }
}

/// A selection out of a sequence without repetitions has none either.
pub proof fn lemma_select_no_duplicates<A>(s: Seq<A>, p: spec_fn(A) -> bool)
    requires
        s.no_duplicates(),
    ensures
        select(s, p).no_duplicates(),
    decreases s.len(),
{
    if s.len() > 0 {
        let t = s.drop_last();
        assert(t.no_duplicates()) by {
            assert forall|a: int, b: int| 0 <= a < t.len() && 0 <= b < t.len() && a != b implies t[a] != t[b] by {
                assert(t[a] == s[a] && t[b] == s[b]);
            }
        }
        lemma_select_no_duplicates(t, p);
        lemma_select_sound(t, p);
        let prev = select(t, p);
        if p(s.last()) {
            assert(!prev.contains(s.last())) by {
                if prev.contains(s.last()) {
                    let k = choose|k: int| 0 <= k < prev.len() && prev[k] == s.last();
                    assert(t.contains(prev[k]));
                    let j = choose|j: int| 0 <= j < t.len() && t[j] == prev[k];
                    assert(s[j] == s[s.len() - 1]);
                }
            }
            let cur = prev.push(s.last());
            assert forall|a: int, b: int| 0 <= a < cur.len() && 0 <= b < cur.len() && a != b implies cur[a] != cur[b] by {
                if a < prev.len() && b < prev.len() {
                } else if a < prev.len() {
                    assert(cur[a] == prev[a]);
                } else {
                    assert(cur[b] == prev[b]);
                }
            }
        }
    }
}

/// Selecting from a concatenation selects from each part in turn.
pub proof fn lemma_select_append<A>(a: Seq<A>, b: Seq<A>, p: spec_fn(A) -> bool)
    ensures
        select(a + b, p) == select(a, p) + select(b, p),
    decreases b.len(),
{
    if b.len() == 0 {
        assert(a + b =~= a);
        assert(select(a, p) + select(b, p) =~= select(a, p));
    } else {
        lemma_select_append(a, b.drop_last(), p);
        assert((a + b).drop_last() =~= a + b.drop_last());
        assert((a + b).last() == b.last());
        if p(b.last()) {
            assert(select(a, p) + select(b, p) =~= (select(a, p) + select(b.drop_last(), p)).push(b.last()));
        } else {
            assert(select(a, p) + select(b, p) =~= select(a, p) + select(b.drop_last(), p));
        }
    }
}

/// Two predicates that agree on every element of `s` select the same.
pub proof fn lemma_select_congruent<A>(s: Seq<A>, p: spec_fn(A) -> bool, q: spec_fn(A) -> bool)
    requires
        forall|i: int| 0 <= i < s.len() ==> p(#[trigger] s[i]) == q(s[i]),
    ensures
        select(s, p) == select(s, q),
    decreases s.len(),
{
    if s.len() > 0 {
        let t = s.drop_last();
        assert forall|i: int| 0 <= i < t.len() implies p(#[trigger] t[i]) == q(t[i]) by {
            assert(t[i] == s[i]);
        }
        lemma_select_congruent(t, p, q);
        assert(p(s[s.len() - 1]) == q(s[s.len() - 1]));
    }
}

/// Replacing the element at `i` by `x` changes the number selected by
/// what the two elements contribute.
pub proof fn lemma_select_update<A>(s: Seq<A>, i: int, x: A, p: spec_fn(A) -> bool)
    requires
        0 <= i < s.len(),
    ensures
        select(s.update(i, x), p).len() + (if p(s[i]) { 1int } else { 0 }) == select(s, p).len() + (if p(x) { 1int } else { 0 }),
    decreases s.len(),
{
    let u = s.update(i, x);
    if i == s.len() - 1 {
        assert(u.drop_last() =~= s.drop_last());
        assert(u.last() == x);
    } else {
        lemma_select_update(s.drop_last(), i, x, p);
        assert(u.drop_last() =~= s.drop_last().update(i, x));
        assert(u.last() == s.last());
    }
}

/// Where `q` holds of the elements `p` holds of, except at position `j`,
/// which `p` selects and `q` does not, `q` selects one fewer.
pub proof fn lemma_select_flip<A>(s: Seq<A>, p: spec_fn(A) -> bool, q: spec_fn(A) -> bool, j: int)
    requires
        0 <= j < s.len(),
        p(s[j]),
        !q(s[j]),
        forall|i: int| 0 <= i < s.len() && i != j ==> p(#[trigger] s[i]) == q(s[i]),
    ensures
        select(s, q).len() + 1 == select(s, p).len(),
    decreases s.len(),
{
    let t = s.drop_last();
    if j == s.len() - 1 {
        assert forall|i: int| 0 <= i < t.len() implies p(#[trigger] t[i]) == q(t[i]) by {
            assert(t[i] == s[i]);
        }
        lemma_select_congruent(t, p, q);
    } else {
        assert forall|i: int| 0 <= i < t.len() && i != j implies p(#[trigger] t[i]) == q(t[i]) by {
            assert(t[i] == s[i]);
        }
        assert(t[j] == s[j]);
        lemma_select_flip(t, p, q, j);
        assert(p(s[s.len() - 1]) == q(s[s.len() - 1]));
    }
}

/// Dropping the last element removes what it contributed.
pub proof fn lemma_select_drop_last<A>(s: Seq<A>, p: spec_fn(A) -> bool)
    requires
        s.len() > 0,
    ensures
        select(s.drop_last(), p).len() + (if p(s.last()) { 1int } else { 0 }) == select(s, p).len(),
{
}

/// Every element of `s` that satisfies `p` is selected.
pub proof fn lemma_select_complete<A>(s: Seq<A>, p: spec_fn(A) -> bool, i: int)
    requires
        0 <= i < s.len(),
        p(s[i]),
    ensures
        select(s, p).contains(s[i]),
    decreases s.len(),
{
    if i == s.len() - 1 {
        let sel = select(s, p);
        assert(sel[sel.len() - 1] == s[i]);
    } else {
        let t = s.drop_last();
        assert(t[i] == s[i]);
        lemma_select_complete(t, p, i);
        let prev = select(t, p);
        let k = choose|k: int| 0 <= k < prev.len() && prev[k] == s[i];
        assert(select(s, p)[k] == s[i]);
    }
}

} // verus!
