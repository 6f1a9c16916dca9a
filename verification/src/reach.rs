//! Reachability from a start node in a directed multigraph given by adjacency lists.
use vstd::prelude::*;

verus! {

/// Whether there is an edge from `a` to `b`.
pub open spec fn step(adj: Seq<Seq<usize>>, a: int, b: int) -> bool {
    0 <= a < adj.len() && 0 <= b < adj.len() && adj[a].contains(b as usize)
}

/// The adjacency lists, as sequences.
pub open spec fn adj_view(adj: Seq<Vec<usize>>) -> Seq<Seq<usize>> {
    adj.map_values(|v: Vec<usize>| v@)
}

/// Nodes reachable from `start` in at most `k` steps.
pub open spec fn within(adj: Seq<Seq<usize>>, start: int, k: nat) -> Set<int>
    decreases k,
{
    if k == 0 {
        set![start]
    } else {
        let prior = within(adj, start, (k - 1) as nat);
        prior.union(Set::new(|b: int| exists|a: int| prior.contains(a) && step(adj, a, b)))
    }
}

/// Whether node `x` is reachable from `start`.
pub open spec fn reachable(adj: Seq<Seq<usize>>, start: int, x: int) -> bool {
    exists|k: nat| #[trigger] within(adj, start, k).contains(x)
}

/// Whether every edge points to a node of the graph.
pub open spec fn closed_graph(adj: Seq<Seq<usize>>) -> bool {
    forall|a: int, j: int| 0 <= a < adj.len() && 0 <= j < adj[a].len() ==> #[trigger] adj[a][j] < adj.len()
}

/// Number of `true` entries.
pub open spec fn count_true(s: Seq<bool>) -> nat
    decreases s.len(),
{
    if s.len() == 0 {
        0
    } else {
        count_true(s.drop_last()) + if s.last() {
            1nat
        } else {
            0nat
        }
    }
}

proof fn lemma_count_bound(s: Seq<bool>)
    ensures
        count_true(s) <= s.len(),
    decreases s.len(),
{
    if s.len() > 0 {
        lemma_count_bound(s.drop_last());
    }
}

proof fn lemma_count_set(s: Seq<bool>, i: int)
    requires
        0 <= i < s.len(),
        !s[i],
    ensures
        count_true(s.update(i, true)) == count_true(s) + 1,
    decreases s.len(),
{
    let t = s.update(i, true);
    if i == s.len() - 1 {
        assert(t.drop_last() =~= s.drop_last());
    } else {
        lemma_count_set(s.drop_last(), i);
        assert(t.drop_last() =~= s.drop_last().update(i, true));
    }
}

proof fn lemma_count_none(s: Seq<bool>)
    requires
        forall|i: int| 0 <= i < s.len() ==> !s[i],
    ensures
        count_true(s) == 0,
    decreases s.len(),
{
    if s.len() > 0 {
        lemma_count_none(s.drop_last());
    }
}

/// Every node in a set that contains `start` and is closed under edges contains every
/// node reachable in `k` steps.
proof fn lemma_within_closed(adj: Seq<Seq<usize>>, start: int, seen: Set<int>, k: nat)
    requires
        seen.contains(start),
        forall|a: int, b: int| seen.contains(a) && #[trigger] step(adj, a, b) ==> seen.contains(b),
    ensures
        within(adj, start, k).subset_of(seen),
    decreases k,
{
    if k > 0 {
        lemma_within_closed(adj, start, seen, (k - 1) as nat);
    }
}

/// Marks the nodes reachable from `start`.
pub fn reach(adj: &Vec<Vec<usize>>, start: usize) -> (r: Vec<bool>)
    requires
        start < adj@.len(),
        closed_graph(adj_view(adj@)),
    ensures
        r@.len() == adj@.len(),
        forall|x: int| 0 <= x < adj@.len() ==> (r@[x] <==> reachable(adj_view(adj@), start as int, x)),
{
    let n = adj.len();
    let mut visited: Vec<bool> = Vec::new();
    let mut i: usize = 0;
    while i < n
        invariant
            i <= n,
            visited@.len() == i,
            forall|x: int| 0 <= x < i ==> !visited@[x],
        decreases n - i,
    {
        visited.push(false);
        i += 1;
    }
    proof {
        lemma_count_none(visited@);
    }
    let ghost mut done: Seq<bool> = Seq::new(n as nat, |x: int| false);
    let mut stack: Vec<usize> = Vec::new();
    let ghost before = visited@;
    visited.set(start, true);
    proof {
        lemma_count_set(before, start as int);
        assert(within(adj_view(adj@), start as int, 0).contains(start as int));
    }
    stack.push(start);
    proof {
        assert forall|x: int| 0 <= x < n && visited@[x] && !done[x] implies #[trigger] stack@.contains(x as usize) by {
            if x != start {
                assert(visited@[x] == before[x]);
            }
            assert(stack@[0] == start);
        }
    }
    let mut marked: usize = 1;
    while stack.len() > 0
        invariant
            n == adj@.len(),
            closed_graph(adj_view(adj@)),
            visited@.len() == n,
            done.len() == n,
            visited@[start as int],
            start < n,
            marked == count_true(visited@),
            marked <= n,
            forall|x: int| 0 <= x < n && #[trigger] visited@[x] ==> reachable(adj_view(adj@), start as int, x),
            forall|x: int| 0 <= x < n && #[trigger] done[x] ==> visited@[x],
            forall|x: int, j: int|
                0 <= x < n && done[x] && 0 <= j < adj@[x]@.len() ==> #[trigger] visited@[adj@[x]@[j] as int],
            forall|x: int| 0 <= x < n && visited@[x] && !done[x] ==> #[trigger] stack@.contains(x as usize),
            forall|m: int| 0 <= m < stack@.len() ==> (#[trigger] stack@[m]) < n && visited@[stack@[m] as int],
        decreases 2 * (n - marked) + stack@.len(),
    {
        let ghost measure = 2 * (n - marked) + stack@.len();
        let ghost full = stack@;
        let x = stack.pop().unwrap();
        proof {
            assert(full =~= stack@.push(x));
            assert forall|y: int| 0 <= y < n && visited@[y] && !done[y] && y != x implies #[trigger] stack@.contains(y as usize) by {
                assert(full.contains(y as usize));
                let m = choose|m: int| 0 <= m < full.len() && full[m] == y as usize;
                assert(m < stack@.len());
                assert(stack@[m] == y as usize);
            }
            assert(x < n && visited@[x as int]) by {
                assert(full[full.len() - 1] == x);
            }
        }
        let targets = &adj[x];
        let mut j: usize = 0;
        while j < targets.len()
            invariant
                n == adj@.len(),
                closed_graph(adj_view(adj@)),
                x < n,
                targets@ == adj@[x as int]@,
                j <= targets@.len(),
                visited@.len() == n,
                visited@[start as int],
            start < n,
                visited@[x as int],
                marked == count_true(visited@),
                marked <= n,
                forall|y: int| 0 <= y < n && #[trigger] visited@[y] ==> reachable(adj_view(adj@), start as int, y),
                forall|y: int| 0 <= y < n && #[trigger] done[y] ==> visited@[y],
                forall|y: int, k: int|
                    0 <= y < n && done[y] && 0 <= k < adj@[y]@.len() ==> #[trigger] visited@[adj@[y]@[k] as int],
                forall|k: int| 0 <= k < j ==> #[trigger] visited@[targets@[k] as int],
                forall|y: int| 0 <= y < n && visited@[y] && !done[y] && y != x ==> #[trigger] stack@.contains(y as usize),
                forall|m: int| 0 <= m < stack@.len() ==> (#[trigger] stack@[m]) < n && visited@[stack@[m] as int],
                2 * (n - marked) + stack@.len() + 1 <= measure,
            decreases targets.len() - j,
        {
            let y = targets[j];
            proof {
                assert(adj@[x as int]@[j as int] == y);
                assert(adj_view(adj@)[x as int] == adj@[x as int]@);
                assert(adj_view(adj@)[x as int][j as int] < n);
                assert(y < n);
            }
            if !visited[y] {
                let ghost prior = visited@;
                visited.set(y, true);
                proof {
                    assert forall|z: int| 0 <= z < n && prior[z] implies visited@[z] by {}
                    assert forall|z: int, k2: int|
                        0 <= z < n && done[z] && 0 <= k2 < adj@[z]@.len() implies #[trigger] visited@[adj@[z]@[k2] as int] by {
                        assert(prior[adj@[z]@[k2] as int]);
                        assert(adj_view(adj@)[z] == adj@[z]@);
                        assert(adj_view(adj@)[z][k2] < n);
                    }
                    lemma_count_set(prior, y as int);
                    lemma_count_bound(visited@);
                    let k = choose|k: nat| #[trigger] within(adj_view(adj@), start as int, k).contains(x as int);
                    assert(step(adj_view(adj@), x as int, y as int));
                    assert(within(adj_view(adj@), start as int, k + 1).contains(y as int));
                }
                marked = marked + 1;
                let ghost prior_stack = stack@;
                stack.push(y);
                proof {
                    assert forall|z: int| 0 <= z < n && visited@[z] && !done[z] && z != x implies #[trigger] stack@.contains(z as usize) by {
                        if z == y as int {
                            assert(stack@[stack@.len() - 1] == y);
                        } else {
                            assert(prior_stack.contains(z as usize));
                            let m = choose|m: int| 0 <= m < prior_stack.len() && prior_stack[m] == z as usize;
                            assert(stack@[m] == z as usize);
                        }
                    }
                }
            }
            j += 1;
        }
        proof {
            done = done.update(x as int, true);
        }
    }
    proof {
        let seen = Set::new(|v: int| 0 <= v < n && visited@[v]);
        assert forall|a: int, b: int| seen.contains(a) && #[trigger] step(adj_view(adj@), a, b) implies seen.contains(b) by {
            if !done[a] {
                assert(stack@.contains(a as usize));
                let m = choose|m: int| 0 <= m < stack@.len() && stack@[m] == a as usize;
                assert(false);
            }
            let j = choose|j: int| 0 <= j < adj@[a]@.len() && adj@[a]@[j] == b as usize;
            assert(visited@[adj@[a]@[j] as int]);
            assert(adj@[a]@[j] < n);
            assert(b == adj@[a]@[j] as int);
        }
        assert forall|x: int| 0 <= x < n && reachable(adj_view(adj@), start as int, x) implies visited@[x] by {
            let k = choose|k: nat| #[trigger] within(adj_view(adj@), start as int, k).contains(x);
            lemma_within_closed(adj_view(adj@), start as int, seen, k);
        }
    }
    visited
}

} // verus!
