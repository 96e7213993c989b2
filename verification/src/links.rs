//! The proximity network drawn between prey: prey are bucketed by the cell
//! of a drawing grid, and each prey is linked to later prey found in the
//! cells around it, up to `MAX_LINKS` links.

use vstd::prelude::*;

use crate::population::{
    lemma_select_complete, lemma_select_no_duplicates, lemma_select_sound, lemma_select_step, select,
};

verus! {

/// The most links drawn from one prey.
pub const MAX_LINKS: usize = 5;

/// The positions among the first `n` of `cells` that hold `c`, in
/// increasing order.
pub open spec fn indices_in(cells: Seq<usize>, n: nat, c: int) -> Seq<usize>
    decreases n,
{
    if n == 0 {
        Seq::empty()
    } else {
        let prev = indices_in(cells, (n - 1) as nat, c);
        if cells[n - 1] == c {
            prev.push((n - 1) as usize)
        } else {
            prev
        }
    }
}

/// Buckets positions by cell: cell `c` of the result lists, in increasing
/// order, the positions `i` with `cells[i] == c`.
pub fn bucket_indices(cells: &Vec<usize>, n_cells: usize) -> (grid: Vec<Vec<usize>>)
    requires
        forall|i: int| 0 <= i < cells@.len() ==> (#[trigger] cells@[i]) < n_cells,
    ensures
        grid@.len() == n_cells,
        forall|c: int| 0 <= c < n_cells ==> (#[trigger] grid@[c])@ == indices_in(cells@, cells@.len(), c),
{
    let mut grid: Vec<Vec<usize>> = Vec::new();
    let mut c: usize = 0;
    while c < n_cells
        invariant
            c <= n_cells,
            grid@.len() == c,
            forall|j: int| 0 <= j < c ==> (#[trigger] grid@[j])@.len() == 0,
        decreases n_cells - c,
    {
        grid.push(Vec::new());
        c = c + 1;
    }
    let mut i: usize = 0;
    while i < cells.len()
        invariant
            i <= cells@.len(),
            grid@.len() == n_cells,
            forall|k: int| 0 <= k < cells@.len() ==> (#[trigger] cells@[k]) < n_cells,
            forall|j: int| 0 <= j < n_cells ==> (#[trigger] grid@[j])@ == indices_in(cells@, i as nat, j),
        decreases cells@.len() - i,
    {
        let cell = cells[i];
        grid[cell].push(i);
        i = i + 1;
    }
    grid
}

/// The positions greater than `i` in the cells `block` of `grid`, cell
/// after cell, each cell in its order.
pub open spec fn later_links(grid: Seq<Seq<usize>>, block: Seq<usize>, i: usize) -> Seq<usize>
    decreases block.len(),
{
    if block.len() == 0 {
        Seq::empty()
    } else {
        later_links(grid, block.drop_last(), i) + select(grid[block.last() as int], |j: usize| j > i)
    }
}

/// The prey that prey `i` may be linked to, in the order they are tried:
/// the later prey (positions greater than `i`) in the cells `block` of the
/// drawing grid, cell after cell.
pub fn link_candidates(grid: &Vec<Vec<usize>>, block: &Vec<usize>, i: usize) -> (candidates: Vec<usize>)
    requires
        forall|k: int| 0 <= k < block@.len() ==> (#[trigger] block@[k]) < grid@.len(),
    ensures
        candidates@ == later_links(grid@.map_values(|c: Vec<usize>| c@), block@, i),
        forall|t: int| 0 <= t < candidates@.len() ==> (#[trigger] candidates@[t]) > i,
        forall|k: int, m: int|
            0 <= k < block@.len() && 0 <= m < grid@[block@[k] as int]@.len() && #[trigger] grid@[block@[k] as int]@[m] > i
                ==> candidates@.contains(grid@[block@[k] as int]@[m]),
{
    let ghost g = grid@.map_values(|c: Vec<usize>| c@);
    let ghost p = |j: usize| j > i;
    let mut candidates: Vec<usize> = Vec::new();
    let mut k: usize = 0;
    while k < block.len()
        invariant
            g == grid@.map_values(|c: Vec<usize>| c@),
            p == (|j: usize| j > i),
            forall|m: int| 0 <= m < block@.len() ==> (#[trigger] block@[m]) < grid@.len(),
            k <= block@.len(),
            candidates@ == later_links(g, block@.take(k as int), i),
        decreases block@.len() - k,
    {
        let cell = block[k];
        let ghost before = candidates@;
        let ghost content = g[cell as int];
        assert(content == grid@[cell as int]@);
        let mut m: usize = 0;
        while m < grid[cell].len()
            invariant
                cell < grid@.len(),
                content == grid@[cell as int]@,
                p == (|j: usize| j > i),
                m <= content.len(),
                candidates@ == before + select(content.take(m as int), p),
            decreases content.len() - m,
        {
            let j = grid[cell][m];
            proof {
                lemma_select_step(content, p, m as int);
            }
            if j > i {
                candidates.push(j);
            }
            m = m + 1;
        }
        proof {
            assert(content.take(content.len() as int) =~= content);
            assert(block@.take(k + 1).drop_last() =~= block@.take(k as int));
            assert(block@.take(k + 1).last() == cell);
        }
        k = k + 1;
    }
    proof {
        assert(block@.take(block@.len() as int) =~= block@);
        assert forall|m: int| 0 <= m < block@.len() implies (#[trigger] block@[m]) < g.len() by {}
        lemma_later_links_exact(g, block@, i);
        assert forall|k: int, m: int|
            0 <= k < block@.len() && 0 <= m < grid@[block@[k] as int]@.len() && #[trigger] grid@[block@[k] as int]@[m] > i
            implies candidates@.contains(grid@[block@[k] as int]@[m]) by {
            assert(g[block@[k] as int] == grid@[block@[k] as int]@);
        }
    }
    candidates
}

/// The candidates among the first `n` whose flag in `in_reach` is set, in
/// order.
pub open spec fn reached(candidates: Seq<usize>, in_reach: Seq<bool>, n: nat) -> Seq<usize>
    decreases n,
{
    if n == 0 {
        Seq::empty()
    } else {
        let prev = reached(candidates, in_reach, (n - 1) as nat);
        if in_reach[n - 1] {
            prev.push(candidates[n - 1])
        } else {
            prev
        }
    }
}

/// The links drawn from a prey: the first `MAX_LINKS` candidates in reach.
pub open spec fn drawn_links(candidates: Seq<usize>, in_reach: Seq<bool>) -> Seq<usize> {
    let all = reached(candidates, in_reach, candidates.len());
    if all.len() <= MAX_LINKS {
        all
    } else {
        all.take(MAX_LINKS as int)
    }
}

proof fn lemma_reached_grows(candidates: Seq<usize>, in_reach: Seq<bool>, k: nat, m: nat)
    requires
        k <= m,
    ensures
        reached(candidates, in_reach, k).len() <= reached(candidates, in_reach, m).len(),
        reached(candidates, in_reach, m).take(reached(candidates, in_reach, k).len() as int)
            == reached(candidates, in_reach, k),
    decreases m - k,
{
    if k < m {
        lemma_reached_grows(candidates, in_reach, k, (m - 1) as nat);
        let a = reached(candidates, in_reach, k);
        let b = reached(candidates, in_reach, (m - 1) as nat);
        let c = reached(candidates, in_reach, m);
        assert(c.take(a.len() as int) =~= b.take(a.len() as int));
    } else {
        let a = reached(candidates, in_reach, k);
        assert(a.take(a.len() as int) =~= a);
    }
}

/// The links drawn from a prey, given its candidates in the order they are
/// tried and, for each, whether it lies within linking distance: the
/// candidates in reach, in order, stopping at `MAX_LINKS`.
pub fn chosen_links(candidates: &Vec<usize>, in_reach: &Vec<bool>) -> (links: Vec<usize>)
    requires
        in_reach@.len() == candidates@.len(),
    ensures
        links@ == drawn_links(candidates@, in_reach@),
        links@.len() <= MAX_LINKS,
        links@.len() == (if in_reach@.filter(flag_set()).len() < MAX_LINKS {
            in_reach@.filter(flag_set()).len()
        } else {
            MAX_LINKS as nat
        }),
        forall|k: int| #![trigger in_reach@.take(k)]
            0 <= k < candidates@.len() && in_reach@[k] && in_reach@.take(k).filter(flag_set()).len() < MAX_LINKS
                ==> links@[in_reach@.take(k).filter(flag_set()).len() as int] == candidates@[k],
{
    let mut links: Vec<usize> = Vec::new();
    let mut k: usize = 0;
    while k < candidates.len()
        invariant
            in_reach@.len() == candidates@.len(),
            k <= candidates@.len(),
            links@ == reached(candidates@, in_reach@, k as nat),
            links@.len() < MAX_LINKS,
        decreases candidates@.len() - k,
    {
        if in_reach[k] {
            links.push(candidates[k]);
            if links.len() >= MAX_LINKS {
                proof {
                    lemma_reached_grows(candidates@, in_reach@, (k + 1) as nat, candidates@.len());
                    let all = reached(candidates@, in_reach@, candidates@.len());
                    if all.len() <= MAX_LINKS {
                        assert(all =~= all.take(links@.len() as int));
                    }
                    assert(links@ =~= drawn_links(candidates@, in_reach@));
                    lemma_drawn_links_rule(candidates@, in_reach@, links@);
                }
                return links;
            }
        }
        k = k + 1;
    }
    proof {
        lemma_drawn_links_rule(candidates@, in_reach@, links@);
    }
    links
}

proof fn lemma_indices_in_facts(cells: Seq<usize>, n: nat, c: int)
    requires
        n <= cells.len(),
        cells.len() <= usize::MAX,
    ensures
        forall|j: int| 0 <= j < indices_in(cells, n, c).len() ==> (#[trigger] indices_in(cells, n, c)[j]) < n
            && cells[indices_in(cells, n, c)[j] as int] == c,
        forall|a: int, b: int| 0 <= a < b < indices_in(cells, n, c).len()
            ==> #[trigger] indices_in(cells, n, c)[a] < #[trigger] indices_in(cells, n, c)[b],
    decreases n,
{
    if n > 0 {
        lemma_indices_in_facts(cells, (n - 1) as nat, c);
        let prev = indices_in(cells, (n - 1) as nat, c);
        let cur = indices_in(cells, n, c);
        if cells[n - 1] == c {
            assert(cur == prev.push((n - 1) as usize));
            assert(((n - 1) as usize) as int == n - 1);
            assert forall|j: int| 0 <= j < cur.len() implies (#[trigger] cur[j]) < n && cells[cur[j] as int] == c by {
                if j < prev.len() {
                    assert(cur[j] == prev[j]);
                }
            }
            assert forall|a: int, b: int| 0 <= a < b < cur.len() implies #[trigger] cur[a] < #[trigger] cur[b] by {
                assert(cur[a] == prev[a]);
                if b < prev.len() {
                    assert(cur[b] == prev[b]);
                }
            }
        } else {
            assert(cur == prev);
        }
    }
}

proof fn lemma_increasing_no_duplicates(s: Seq<usize>)
    requires
        forall|a: int, b: int| 0 <= a < b < s.len() ==> #[trigger] s[a] < #[trigger] s[b],
    ensures
        s.no_duplicates(),
{
    assert forall|a: int, b: int| 0 <= a < s.len() && 0 <= b < s.len() && a != b implies s[a] != s[b] by {
        if a < b {
            assert(s[a] < s[b]);
        } else {
            assert(s[b] < s[a]);
        }
    }
}

proof fn lemma_later_links_facts(cells: Seq<usize>, grid: Seq<Seq<usize>>, block: Seq<usize>, i: usize)
    requires
        cells.len() <= usize::MAX,
        block.no_duplicates(),
        forall|t: int| 0 <= t < block.len() ==> (#[trigger] block[t]) < grid.len(),
        forall|c: int| 0 <= c < grid.len() ==> #[trigger] grid[c] == indices_in(cells, cells.len(), c),
    ensures
        later_links(grid, block, i).no_duplicates(),
        forall|j: int| 0 <= j < later_links(grid, block, i).len() ==> {
            &&& (#[trigger] later_links(grid, block, i)[j]) > i
            &&& (later_links(grid, block, i)[j] as int) < cells.len()
            &&& block.contains(cells[later_links(grid, block, i)[j] as int])
        },
    decreases block.len(),
{
    if block.len() > 0 {
        let rest = block.drop_last();
        assert(rest.no_duplicates()) by {
            assert forall|a: int, b: int| 0 <= a < rest.len() && 0 <= b < rest.len() && a != b implies rest[a] != rest[b] by {
                assert(rest[a] == block[a] && rest[b] == block[b]);
            }
        }
        assert forall|t: int| 0 <= t < rest.len() implies (#[trigger] rest[t]) < grid.len() by {
            assert(rest[t] == block[t]);
        }
        lemma_later_links_facts(cells, grid, rest, i);
        let prev = later_links(grid, rest, i);
        let c = block.last() as int;
        assert(block[block.len() - 1] == block.last());
        let content = grid[c];
        let p = |j: usize| j > i;
        lemma_indices_in_facts(cells, cells.len(), c);
        lemma_increasing_no_duplicates(content);
        lemma_select_no_duplicates(content, p);
        lemma_select_sound(content, p);
        let here = select(content, p);
        let all = later_links(grid, block, i);
        assert(all == prev + here);
        assert forall|j: int| 0 <= j < all.len() implies {
            &&& (#[trigger] all[j]) > i
            &&& (all[j] as int) < cells.len()
            &&& block.contains(cells[all[j] as int])
        } by {
            if j < prev.len() {
                assert(all[j] == prev[j]);
                let t = choose|t: int| 0 <= t < rest.len() && rest[t] == cells[prev[j] as int];
                assert(block[t] == rest[t]);
            } else {
                let u = j - prev.len();
                assert(all[j] == here[u]);
                assert(content.contains(here[u]));
                let w = choose|w: int| 0 <= w < content.len() && content[w] == here[u];
                assert(block[block.len() - 1] == cells[all[j] as int]);
            }
        }
        assert forall|a: int, b: int| 0 <= a < all.len() && 0 <= b < all.len() && a != b implies all[a] != all[b] by {
            if a < prev.len() && b < prev.len() {
                assert(all[a] == prev[a] && all[b] == prev[b]);
            } else if a >= prev.len() && b >= prev.len() {
                assert(all[a] == here[a - prev.len()] && all[b] == here[b - prev.len()]);
            } else {
                let (o, n) = if a < prev.len() { (a, b) } else { (b, a) };
                assert(all[o] == prev[o]);
                assert(all[n] == here[n - prev.len()]);
                assert(content.contains(here[n - prev.len()]));
                let w = choose|w: int| 0 <= w < content.len() && content[w] == here[n - prev.len()];
                let t = choose|t: int| 0 <= t < rest.len() && rest[t] == cells[prev[o] as int];
                if all[o] == all[n] {
                    assert(block[t] == block[block.len() - 1]);
                }
            }
        }
    }
}

proof fn lemma_reached_facts(candidates: Seq<usize>, in_reach: Seq<bool>, n: nat)
    requires
        n <= candidates.len(),
        n <= in_reach.len(),
        candidates.no_duplicates(),
    ensures
        reached(candidates, in_reach, n).no_duplicates(),
        forall|j: int| 0 <= j < reached(candidates, in_reach, n).len()
            ==> candidates.subrange(0, n as int).contains(#[trigger] reached(candidates, in_reach, n)[j]),
    decreases n,
{
    if n > 0 {
        lemma_reached_facts(candidates, in_reach, (n - 1) as nat);
        let prev = reached(candidates, in_reach, (n - 1) as nat);
        let cur = reached(candidates, in_reach, n);
        let before = candidates.subrange(0, n - 1);
        let upto = candidates.subrange(0, n as int);
        assert forall|x: usize| before.contains(x) implies upto.contains(x) by {
            let m = choose|m: int| 0 <= m < before.len() && before[m] == x;
            assert(upto[m] == x);
        }
        if in_reach[n - 1] {
            assert(cur == prev.push(candidates[n - 1]));
            assert(upto[n - 1] == candidates[n - 1]);
            assert forall|a: int, b: int| 0 <= a < cur.len() && 0 <= b < cur.len() && a != b implies cur[a] != cur[b] by {
                if a < prev.len() && b < prev.len() {
                    assert(cur[a] == prev[a] && cur[b] == prev[b]);
                } else {
                    let o = if a < prev.len() { a } else { b };
                    assert(cur[o] == prev[o]);
                    assert(before.contains(prev[o]));
                    let m = choose|m: int| 0 <= m < before.len() && before[m] == prev[o];
                    assert(candidates[m] == prev[o]);
                }
            }
            assert forall|j: int| 0 <= j < cur.len() implies upto.contains(#[trigger] cur[j]) by {
                if j < prev.len() {
                    assert(cur[j] == prev[j]);
                    assert(before.contains(prev[j]));
                }
            }
        } else {
            assert(cur == prev);
            assert forall|j: int| 0 <= j < cur.len() implies upto.contains(#[trigger] cur[j]) by {
                assert(before.contains(prev[j]));
            }
        }
    }
}

/// The links drawn from prey `i`, with the drawing grid filled by
/// `bucket_indices` from the prey's cells and the candidates taken by
/// `link_candidates` from a block of distinct cells (as `neighbor_cells`
/// gives), go to later prey only, each at most once, and are at most
/// `MAX_LINKS`; as prey `i` links only to prey after it, no pair of prey is
/// linked twice.
pub proof fn lemma_links_drawn_once(
    cells: Seq<usize>,
    grid: Seq<Seq<usize>>,
    block: Seq<usize>,
    i: usize,
    in_reach: Seq<bool>,
)
    requires
        cells.len() <= usize::MAX,
        block.no_duplicates(),
        forall|t: int| 0 <= t < block.len() ==> (#[trigger] block[t]) < grid.len(),
        forall|c: int| 0 <= c < grid.len() ==> #[trigger] grid[c] == indices_in(cells, cells.len(), c),
        in_reach.len() == later_links(grid, block, i).len(),
    ensures
        ({
            let links = drawn_links(later_links(grid, block, i), in_reach);
            &&& links.no_duplicates()
            &&& links.len() <= MAX_LINKS
            &&& forall|j: int| 0 <= j < links.len() ==> #[trigger] links[j] > i && (links[j] as int) < cells.len()
        }),
{
    let candidates = later_links(grid, block, i);
    lemma_later_links_facts(cells, grid, block, i);
    lemma_reached_facts(candidates, in_reach, candidates.len());
    let all = reached(candidates, in_reach, candidates.len());
    let links = drawn_links(candidates, in_reach);
    assert(candidates.subrange(0, candidates.len() as int) =~= candidates);
    assert forall|j: int| 0 <= j < all.len() implies #[trigger] all[j] > i && (all[j] as int) < cells.len() by {
        assert(candidates.contains(all[j]));
        let m = choose|m: int| 0 <= m < candidates.len() && candidates[m] == all[j];
    }
    if all.len() > MAX_LINKS {
        assert forall|a: int, b: int| 0 <= a < links.len() && 0 <= b < links.len() && a != b implies links[a] != links[b] by {
            assert(links[a] == all[a] && links[b] == all[b]);
        }
        assert forall|j: int| 0 <= j < links.len() implies #[trigger] links[j] > i && (links[j] as int) < cells.len() by {
            assert(links[j] == all[j]);
        }
    }
}

/// The test that a flag is set.
pub open spec fn flag_set() -> spec_fn(bool) -> bool {
    |b: bool| b
}

proof fn lemma_reached_closed(candidates: Seq<usize>, in_reach: Seq<bool>, n: nat)
    requires
        n <= candidates.len(),
        n <= in_reach.len(),
    ensures
        reached(candidates, in_reach, n).len() == in_reach.take(n as int).filter(flag_set()).len(),
        forall|k: int| #![trigger in_reach.take(k)]
            0 <= k < n && in_reach[k] ==> in_reach.take(k).filter(flag_set()).len() < reached(candidates, in_reach, n).len()
                && reached(candidates, in_reach, n)[in_reach.take(k).filter(flag_set()).len() as int] == candidates[k],
    decreases n,
{
    reveal(Seq::filter);
    if n == 0 {
        assert(in_reach.take(0) =~= Seq::<bool>::empty());
    } else {
        lemma_reached_closed(candidates, in_reach, (n - 1) as nat);
        let prev = reached(candidates, in_reach, (n - 1) as nat);
        let cur = reached(candidates, in_reach, n);
        let t = in_reach.take(n as int);
        assert(t.drop_last() =~= in_reach.take(n - 1));
        assert(t.last() == in_reach[n - 1]);
        let f = flag_set();
        assert(f(in_reach[n - 1]) == in_reach[n - 1]);
        if in_reach[n - 1] {
            assert(cur == prev.push(candidates[n - 1]));
            assert(t.filter(f) == in_reach.take(n - 1).filter(f).push(in_reach[n - 1]));
        } else {
            assert(cur == prev);
            assert(t.filter(f) == in_reach.take(n - 1).filter(f));
        }
        assert forall|k: int| #![trigger in_reach.take(k)]
            0 <= k < n && in_reach[k] implies in_reach.take(k).filter(flag_set()).len() < cur.len()
                && cur[in_reach.take(k).filter(flag_set()).len() as int] == candidates[k] by {
            if k < n - 1 {
                let c = in_reach.take(k).filter(flag_set()).len() as int;
                assert(prev[c] == candidates[k]);
                assert(cur[c] == prev[c]);
            }
        }
    }
}

/// The links drawn from a prey are, in order, its candidates in reach:
/// there are as many links as candidates in reach, up to `MAX_LINKS`, over
/// the whole candidate list; and a candidate in reach with `c` candidates
/// in reach before it is link number `c` whenever `c < MAX_LINKS`.
pub proof fn lemma_drawn_links_rule(candidates: Seq<usize>, in_reach: Seq<bool>, links: Seq<usize>)
    requires
        in_reach.len() == candidates.len(),
        links == drawn_links(candidates, in_reach),
    ensures
        links.len() == (if in_reach.filter(flag_set()).len() < MAX_LINKS {
            in_reach.filter(flag_set()).len()
        } else {
            MAX_LINKS as nat
        }),
        forall|k: int| #![trigger in_reach.take(k)]
            0 <= k < candidates.len() && in_reach[k] && in_reach.take(k).filter(flag_set()).len() < MAX_LINKS
                ==> links[in_reach.take(k).filter(flag_set()).len() as int] == candidates[k],
{
    lemma_reached_closed(candidates, in_reach, candidates.len());
    assert(in_reach.take(candidates.len() as int) =~= in_reach);
    let all = reached(candidates, in_reach, candidates.len());
    assert forall|k: int| #![trigger in_reach.take(k)]
        0 <= k < candidates.len() && in_reach[k] && in_reach.take(k).filter(flag_set()).len() < MAX_LINKS
        implies links[in_reach.take(k).filter(flag_set()).len() as int] == candidates[k] by {
        let c = in_reach.take(k).filter(flag_set()).len() as int;
        assert(all[c] == candidates[k]);
        assert(links[c] == all[c]);
    }
}

/// The candidates of a prey are exactly the later prey listed in the cells
/// of the block: each candidate is later than `i` and listed in a cell of
/// the block, and each later prey listed in a cell of the block is a
/// candidate, however many there are.
pub proof fn lemma_later_links_exact(grid: Seq<Seq<usize>>, block: Seq<usize>, i: usize)
    requires
        forall|k: int| 0 <= k < block.len() ==> (#[trigger] block[k]) < grid.len(),
    ensures
        forall|t: int| 0 <= t < later_links(grid, block, i).len() ==> (#[trigger] later_links(grid, block, i)[t]) > i,
        forall|k: int, m: int|
            0 <= k < block.len() && 0 <= m < grid[block[k] as int].len() && #[trigger] grid[block[k] as int][m] > i
                ==> later_links(grid, block, i).contains(grid[block[k] as int][m]),
    decreases block.len(),
{
    if block.len() > 0 {
        let rest = block.drop_last();
        assert forall|k: int| 0 <= k < rest.len() implies (#[trigger] rest[k]) < grid.len() by {
            assert(rest[k] == block[k]);
        }
        lemma_later_links_exact(grid, rest, i);
        let prev = later_links(grid, rest, i);
        let c = block.last() as int;
        assert(block[block.len() - 1] == block.last());
        let p = |j: usize| j > i;
        let here = select(grid[c], p);
        let all = later_links(grid, block, i);
        assert(all == prev + here);
        lemma_select_sound(grid[c], p);
        assert forall|t: int| 0 <= t < all.len() implies (#[trigger] all[t]) > i by {
            if t < prev.len() {
                assert(all[t] == prev[t]);
            } else {
                assert(all[t] == here[t - prev.len()]);
                assert(p(here[t - prev.len()]));
            }
        }
        assert forall|k: int, m: int|
            0 <= k < block.len() && 0 <= m < grid[block[k] as int].len() && #[trigger] grid[block[k] as int][m] > i
            implies all.contains(grid[block[k] as int][m]) by {
            let x = grid[block[k] as int][m];
            if k < block.len() - 1 {
                assert(rest[k] == block[k]);
                assert(prev.contains(x));
                let w = choose|w: int| 0 <= w < prev.len() && prev[w] == x;
                assert(all[w] == x);
            } else {
                assert(p(grid[c][m]));
                lemma_select_complete(grid[c], p, m);
                let w = choose|w: int| 0 <= w < here.len() && here[w] == x;
                assert(all[prev.len() + w] == x);
            }
        }
    }
}

} // verus!
