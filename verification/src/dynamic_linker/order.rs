//! Depth-first search, strongly connected components and the dependency-first
//! order of a graph.

use crate::dynamic_linker::reach::{
    accounted, closed_graph, edge, falses, finish_order, finish_so_far, lemma_advance,
    lemma_backward_closed, lemma_falses_update, lemma_finish_top, lemma_last_reaches_back, lemma_latest,
    lemma_push_child, lemma_reach_edge, lemma_reach_refl, lemma_reach_trans, listed, lists_all,
    mutual, mutual_is_an_equivalence, on_stack, progress, reach, reach_in, stack_is_path,
    transposed, Adjacency,
};
use crate::sort::{sort_by_rank, sorted, sorting_keeps_the_items};
use vstd::prelude::*;

verus! {

/// The graph that successor lists denote.
pub open spec fn adjacency(lists: Seq<Vec<u32>>) -> Adjacency {
    Seq::new(lists.len(), |i: int| lists[i]@)
}

/// Depth-first search below `u` from its successor number `next` on: each
/// successor that is not visited yet is explored in turn, then `u` is finished.
/// The result is what is visited and finished afterwards.
pub open spec fn explore(
    adj: Adjacency,
    u: int,
    next: int,
    visited: Seq<bool>,
    finish: Seq<u32>,
) -> (Seq<bool>, Seq<u32>)
    decreases falses(visited), adj[u].len() - next,
{
    if next >= adj[u].len() {
        (visited, finish.push(u as u32))
    } else {
        let child = adj[u][next] as int;
        if !(0 <= child < visited.len()) || visited[child] {
            explore(adj, u, next + 1, visited, finish)
        } else {
            proof {
                lemma_falses_update(visited, child);
            }
            let (seen, done) = explore(adj, child, 0, visited.update(child, true), finish);
            // Exploring visits more nodes, so this is always the case.
            if falses(seen) < falses(visited) {
                explore(adj, u, next + 1, seen, done)
            } else {
                (seen, done)
            }
        }
    }
}

/// The state after exploring from each of the first `k` of `starts` in turn.
pub open spec fn explore_starts(adj: Adjacency, starts: Seq<u32>, k: int) -> (Seq<bool>, Seq<u32>)
    decreases k,
{
    if k <= 0 {
        (Seq::new(adj.len(), |i: int| false), Seq::empty())
    } else {
        let (visited, finish) = explore_starts(adj, starts, k - 1);
        let start = starts[k - 1] as int;
        if visited[start] {
            (visited, finish)
        } else {
            explore(adj, start, 0, visited.update(start, true), finish)
        }
    }
}

/// The nodes in the order in which depth-first search from `starts` leaves them.
pub open spec fn depth_first(adj: Adjacency, starts: Seq<u32>) -> Seq<u32> {
    explore_starts(adj, starts, starts.len() as int).1
}

/// Finishes the search for every entry of a search stack, from its top down.
spec fn resume(
    adj: Adjacency,
    stack: Seq<(u32, usize)>,
    visited: Seq<bool>,
    finish: Seq<u32>,
) -> (Seq<bool>, Seq<u32>)
    decreases stack.len(),
{
    if stack.len() == 0 {
        (visited, finish)
    } else {
        let top = stack.last();
        let (seen, done) = explore(adj, top.0 as int, top.1 as int, visited, finish);
        resume(adj, stack.drop_last(), seen, done)
    }
}

/// Exploring never forgets a visited node.
proof fn lemma_explore_grows(
    adj: Adjacency,
    u: int,
    next: int,
    visited: Seq<bool>,
    finish: Seq<u32>,
)
    ensures
        falses(explore(adj, u, next, visited, finish).0) <= falses(visited),
    decreases falses(visited), adj[u].len() - next,
{
    if next < adj[u].len() {
        let child = adj[u][next] as int;
        if !(0 <= child < visited.len()) || visited[child] {
            lemma_explore_grows(adj, u, next + 1, visited, finish);
        } else {
            lemma_falses_update(visited, child);
            let (seen, done) = explore(adj, child, 0, visited.update(child, true), finish);
            lemma_explore_grows(adj, child, 0, visited.update(child, true), finish);
            lemma_explore_grows(adj, u, next + 1, seen, done);
        }
    }
}

/// Exploring an unvisited successor first and then the rest is what exploring
/// means.
proof fn lemma_resume_child(
    adj: Adjacency,
    stack: Seq<(u32, usize)>,
    visited: Seq<bool>,
    finish: Seq<u32>,
    child: u32,
)
    requires
        stack.len() > 0,
        stack.last().1 < adj[stack.last().0 as int].len(),
        stack.last().1 < usize::MAX,
        adj[stack.last().0 as int][stack.last().1 as int] == child,
        child < visited.len(),
        !visited[child as int],
    ensures
        ({
            let top = stack.last();
            let moved = stack.drop_last().push((top.0, (top.1 + 1) as usize)).push((child, 0));
            resume(adj, moved, visited.update(child as int, true), finish) == resume(
                adj,
                stack,
                visited,
                finish,
            )
        }),
{
    let top = stack.last();
    let passed = stack.drop_last().push((top.0, (top.1 + 1) as usize));
    let moved = passed.push((child, 0));
    let seen = visited.update(child as int, true);
    lemma_falses_update(visited, child as int);
    lemma_explore_grows(adj, child as int, 0, seen, finish);
    assert(moved.drop_last() =~= passed);
    assert(passed.drop_last() =~= stack.drop_last());
    reveal_with_fuel(resume, 3);
}

/// The number of successors that the top of the search stack has not passed yet.
spec fn remaining(adj: Adjacency, stack: Seq<(u32, usize)>) -> int {
    if stack.len() == 0 {
        0
    } else {
        adj[stack.last().0 as int].len() - stack.last().1
    }
}

/// Depth-first search from each of `starts` in turn. The result lists every node
/// in the order in which the search leaves it.
fn dfs_finish(adj: &Vec<Vec<u32>>, starts: &Vec<u32>) -> (finish: Vec<u32>)
    requires
        closed_graph(adjacency(adj@)),
        lists_all(starts@, adj@.len() as int),
    ensures
        finish@ == depth_first(adjacency(adj@), starts@),
        lists_all(finish@, adj@.len() as int),
        finish_order(adjacency(adj@), finish@),
{
    let n: usize = adj.len();
    let ghost graph = adjacency(adj@);
    let mut visited: Vec<bool> = Vec::new();
    let mut filled: usize = 0;
    while filled < n
        invariant
            filled <= n,
            visited@.len() == filled,
            forall|i: int| 0 <= i < filled ==> !visited@[i],
        decreases n - filled,
    {
        visited.push(false);
        filled = filled + 1;
    }
    let mut finish: Vec<u32> = Vec::new();
    let mut stack: Vec<(u32, usize)> = Vec::new();
    let mut next_start: usize = 0;
    assert(visited@ =~= Seq::new(graph.len(), |i: int| false));
    assert(accounted(n as int, visited@, stack@, finish@)) by {
        assert forall|u: int| 0 <= u < n implies (#[trigger] visited@[u] <==> (listed(finish@, u)
            || on_stack(stack@, u))) by {}
    }
    while next_start < starts.len()
        invariant
            n == adj@.len(),
            graph == adjacency(adj@),
            closed_graph(graph),
            lists_all(starts@, n as int),
            next_start <= starts@.len(),
            stack@.len() == 0,
            accounted(n as int, visited@, stack@, finish@),
            progress(graph, visited@, stack@, finish@),
            stack_is_path(graph, stack@),
            finish_so_far(graph, stack@, finish@),
            forall|i: int| 0 <= i < next_start ==> visited@[(#[trigger] starts@[i]) as int],
            (visited@, finish@) == explore_starts(graph, starts@, next_start as int),
        decreases starts@.len() - next_start,
    {
        let start: u32 = starts[next_start];
        let ghost before = visited@;
        let ghost target = explore_starts(graph, starts@, next_start + 1);
        if !visited[start as usize] {
            proof {
                lemma_push_child(graph, visited@, stack@, finish@, start);
            }
            visited.set(start as usize, true);
            stack.push((start, 0));
            proof {
                assert(stack@.drop_last() =~= Seq::<(u32, usize)>::empty());
                reveal_with_fuel(resume, 2);
            }
            while stack.len() > 0
                invariant
                    resume(graph, stack@, visited@, finish@) == target,
                    n == adj@.len(),
                    graph == adjacency(adj@),
                    closed_graph(graph),
                    accounted(n as int, visited@, stack@, finish@),
                    progress(graph, visited@, stack@, finish@),
                    stack_is_path(graph, stack@),
                    finish_so_far(graph, stack@, finish@),
                    before.len() == n,
                    visited@.len() == n,
                    forall|u: int| 0 <= u < n && before[u] ==> #[trigger] visited@[u],
                    start < n,
                    visited@[start as int],
                decreases falses(visited@), stack@.len(), remaining(graph, stack@),
            {
                let top: usize = stack.len() - 1;
                let (node, next) = stack[top];
                assert(stack@.last() == stack@[top as int]);
                assert(node < n);
                assert(graph[node as int] == adj@[node as int]@);
                if next < adj[node as usize].len() {
                    let child: u32 = adj[node as usize][next];
                    assert(graph[node as int][next as int] == child);
                    assert(child < n);
                    let ghost old_stack = stack@;
                    if visited[child as usize] {
                        proof {
                            lemma_advance(graph, visited@, stack@, finish@, top as int);
                        }
                        stack.set(top, (node, next + 1));
                        assert(stack@.last() == (node, (next + 1) as usize));
                        assert(stack@.drop_last() =~= old_stack.drop_last());
                    } else {
                        proof {
                            lemma_falses_update(visited@, child as int);
                            assert(edge(graph, node as int, child as int));
                            lemma_push_child(graph, visited@, stack@, finish@, child);
                            lemma_resume_child(graph, stack@, visited@, finish@, child);
                            let seen = visited@.update(child as int, true);
                            let grown = stack@.push((child, 0usize));
                            lemma_advance(graph, seen, grown, finish@, top as int);
                        }
                        visited.set(child as usize, true);
                        stack.set(top, (node, next + 1));
                        stack.push((child, 0));
                        proof {
                            let grown = old_stack.push((child, 0usize));
                            assert(stack@ =~= old_stack.drop_last().push(
                                (node, (next + 1) as usize),
                            ).push((child, 0usize)));
                            assert(stack@ =~= grown.update(
                                top as int,
                                (node, (next + 1) as usize),
                            ));
                        }
                    }
                } else {
                    proof {
                        lemma_finish_top(graph, visited@, stack@, finish@);
                    }
                    finish.push(node);
                    let popped = stack.pop();
                }
            }
        }
        next_start = next_start + 1;
    }
    proof {
        assert(next_start == starts@.len());
        assert(forall|u: int| 0 <= u < n ==> #[trigger] listed(finish@, u)) by {
            assert forall|u: int| 0 <= u < n implies #[trigger] listed(finish@, u) by {
                assert(listed(starts@, u));
                assert(visited@[u]);
            }
        }
        lemma_full_list(finish@, n as int);
        assert(finish_order(graph, finish@));
    }
    finish
}

/// A list without repetition that holds every number below `n` and nothing else
/// has `n` entries.
proof fn lemma_full_list(order: Seq<u32>, n: int)
    requires
        0 <= n,
        order.no_duplicates(),
        forall|i: int| 0 <= i < order.len() ==> (#[trigger] order[i]) < n,
        forall|u: int| 0 <= u < n ==> #[trigger] listed(order, u),
    ensures
        order.len() == n,
{
    let numbers = order.map_values(|x: u32| x as int);
    assert(numbers.no_duplicates());
    numbers.unique_seq_to_set();
    let all = vstd::set_lib::set_int_range(0, n);
    vstd::set_lib::lemma_int_range(0, n);
    assert(numbers.to_set() =~= all) by {
        assert forall|u: int| numbers.to_set().contains(u) <==> all.contains(u) by {
            if all.contains(u) {
                assert(listed(order, u));
                let i = choose|i: int| 0 <= i < order.len() && #[trigger] order[i] == u;
                assert(numbers[i] == u);
                assert(numbers.contains(u));
            }
            if numbers.to_set().contains(u) {
                assert(numbers.contains(u));
                let i = choose|i: int| 0 <= i < numbers.len() && numbers[i] == u;
                assert(order[i] < n);
            }
        }
    }
}

/// Marks that no component has been assigned yet.
pub const UNASSIGNED: u32 = u32::MAX;

/// Which nodes have a component.
pub open spec fn assigned(comp: Seq<u32>) -> Seq<bool> {
    Seq::new(comp.len(), |u: int| comp[u] != UNASSIGNED)
}

/// What is known of components below `count`: they are whole cycles, each with a
/// member, and no two nodes of one cycle are told apart.
#[verifier::opaque]
spec fn components_so_far(adj: Adjacency, comp: Seq<u32>, count: int) -> bool {
    &&& comp.len() == adj.len()
    &&& forall|u: int|
        0 <= u < comp.len() && (#[trigger] comp[u]) != UNASSIGNED ==> comp[u] < count
    &&& forall|u: int, v: int|
        0 <= u < comp.len() && 0 <= v < comp.len() && comp[u] != UNASSIGNED && comp[v] != UNASSIGNED
            ==> ((#[trigger] comp[u]) == (#[trigger] comp[v]) <==> mutual(adj, u, v))
    &&& forall|u: int, v: int|
        0 <= u < comp.len() && 0 <= v < comp.len() && comp[u] != UNASSIGNED && #[trigger] mutual(
            adj,
            u,
            v,
        ) ==> comp[v] != UNASSIGNED
    &&& forall|c: int| 0 <= c < count ==> #[trigger] has_member(comp, c)
}

pub open spec fn has_member(comp: Seq<u32>, c: int) -> bool {
    exists|u: int| 0 <= u < comp.len() && #[trigger] comp[u] == c
}

/// Whether `comp` numbers the strongly connected components of `adj` by
/// `0..count`.
pub open spec fn is_components(adj: Adjacency, comp: Seq<u32>, count: int) -> bool {
    &&& comp.len() == adj.len()
    &&& forall|u: int| 0 <= u < comp.len() ==> (#[trigger] comp[u]) < count
    &&& forall|u: int, v: int|
        0 <= u < comp.len() && 0 <= v < comp.len() ==> ((#[trigger] comp[u]) == (#[trigger] comp[v])
            <==> mutual(adj, u, v))
    &&& forall|c: int| 0 <= c < count ==> #[trigger] has_member(comp, c)
}

/// Whether the `i`-th node of a finish order finishes last of its component.
pub open spec fn is_head(adj: Adjacency, order: Seq<u32>, i: int) -> bool {
    forall|j: int|
        i < j < order.len() ==> !(#[trigger] mutual(adj, order[i] as int, order[j] as int))
}

/// How many components finish at position `i` or later.
#[verifier::opaque]
pub open spec fn heads_from(adj: Adjacency, order: Seq<u32>, i: int) -> nat
    decreases order.len() - i,
{
    if i >= order.len() {
        0
    } else {
        heads_from(adj, order, i + 1) + if is_head(adj, order, i) {
            1nat
        } else {
            0nat
        }
    }
}

/// The numbers below `n` in ascending order.
pub open spec fn ascending_ids(n: nat) -> Seq<u32> {
    Seq::new(n, |i: int| i as u32)
}

/// The position at which the component of `u` finishes.
pub open spec fn head_of(adj: Adjacency, order: Seq<u32>, u: int) -> int {
    choose|i: int|
        0 <= i < order.len() && is_head(adj, order, i) && #[trigger] mutual(
            adj,
            order[i] as int,
            u,
        )
}

/// The number of the component of `u`: how many components finish after it in a
/// depth-first search that starts at the nodes in ascending order.
pub open spec fn component(adj: Adjacency, u: int) -> u32 {
    let order = depth_first(adj, ascending_ids(adj.len()));
    heads_from(adj, order, head_of(adj, order, u) + 1) as u32
}

/// The number of components.
pub open spec fn component_count(adj: Adjacency) -> nat {
    heads_from(adj, depth_first(adj, ascending_ids(adj.len())), 0)
}

proof fn lemma_heads_step(adj: Adjacency, order: Seq<u32>, i: int)
    ensures
        i >= order.len() ==> heads_from(adj, order, i) == 0,
        i < order.len() && is_head(adj, order, i) ==> heads_from(adj, order, i) == heads_from(
            adj,
            order,
            i + 1,
        ) + 1,
        i < order.len() && !is_head(adj, order, i) ==> heads_from(adj, order, i) == heads_from(
            adj,
            order,
            i + 1,
        ),
{
    reveal(heads_from);
}

/// Each component is numbered by how many finish after it.
#[verifier::opaque]
spec fn numbered(adj: Adjacency, order: Seq<u32>, comp: Seq<u32>, from: int) -> bool {
    &&& forall|i: int|
        from <= i < order.len() && is_head(adj, order, i) ==> comp[(#[trigger] order[i]) as int]
            == heads_from(adj, order, i + 1)
    &&& forall|u: int|
        0 <= u < comp.len() && (#[trigger] comp[u]) != UNASSIGNED ==> joins(adj, order, from, u)
}

/// Whether `u` lies on a cycle with a node that finishes at `from` or later.
spec fn joins(adj: Adjacency, order: Seq<u32>, from: int, u: int) -> bool {
    exists|j: int| from <= j < order.len() && #[trigger] mutual(adj, u, order[j] as int)
}

proof fn lemma_component_number(adj: Adjacency, order: Seq<u32>, comp: Seq<u32>, u: int)
    requires
        lists_all(order, adj.len() as int),
        is_components(adj, comp, heads_from(adj, order, 0) as int),
        numbered(adj, order, comp, 0),
        0 <= u < adj.len(),
    ensures
        comp[u] == heads_from(adj, order, head_of(adj, order, u) + 1),
{
    reveal(numbered);
    assert(listed(order, u));
    let i = choose|i: int| 0 <= i < order.len() && #[trigger] order[i] == u;
    let latest = lemma_latest(adj, order, i);
    mutual_is_an_equivalence(adj, u, order[latest] as int, u);
    assert(is_head(adj, order, latest));
    let head = head_of(adj, order, u);
    assert(0 <= head < order.len() && is_head(adj, order, head) && mutual(
        adj,
        order[head] as int,
        u,
    ));
    assert(comp[order[head] as int] == comp[u]);
}

/// What is known while the component of `s` is being collected.
#[verifier::opaque]
spec fn collecting(
    adj: Adjacency,
    adj_t: Adjacency,
    before: Seq<u32>,
    comp: Seq<u32>,
    stack: Seq<u32>,
    count: u32,
    s: int,
) -> bool {
    &&& comp.len() == adj.len()
    &&& before.len() == adj.len()
    &&& 0 <= s < adj.len()
    &&& comp[s] == count
    &&& forall|u: int|
        0 <= u < comp.len() && before[u] != UNASSIGNED ==> (#[trigger] comp[u]) == before[u]
    &&& forall|u: int|
        0 <= u < comp.len() && before[u] == UNASSIGNED && (#[trigger] comp[u]) != UNASSIGNED
            ==> comp[u] == count && reach(adj, u, s)
    &&& forall|k: int|
        0 <= k < stack.len() ==> (#[trigger] stack[k]) < adj.len() && before[stack[k] as int]
            == UNASSIGNED && comp[stack[k] as int] == count
}

/// Every predecessor of a collected node is assigned, unless the node is still
/// on the stack or is `current` and the predecessor is not among its first
/// `passed`.
#[verifier::opaque]
spec fn predecessors_passed(
    adj_t: Adjacency,
    before: Seq<u32>,
    comp: Seq<u32>,
    stack: Seq<u32>,
    current: int,
    passed: int,
) -> bool {
    forall|u: int, c: int|
        0 <= u < comp.len() && before[u] == UNASSIGNED && comp[u] != UNASSIGNED && 0 <= c
            < adj_t[u].len() && !stack.contains(u as u32) && (u != current || c < passed)
            ==> comp[(#[trigger] adj_t[u][c]) as int] != UNASSIGNED
}

/// Gives `node` and every node that reaches it through unassigned nodes the
/// number `count`.
fn collect_component(
    adj: &Vec<Vec<u32>>,
    adj_t: &Vec<Vec<u32>>,
    comp: &mut Vec<u32>,
    node: u32,
    count: u32,
)
    requires
        adj@.len() <= UNASSIGNED,
        closed_graph(adjacency(adj@)),
        transposed(adjacency(adj@), adjacency(adj_t@)),
        old(comp)@.len() == adj@.len(),
        node < adj@.len(),
        count < adj@.len(),
        old(comp)@[node as int] == UNASSIGNED,
    ensures
        collecting(
            adjacency(adj@),
            adjacency(adj_t@),
            old(comp)@,
            final(comp)@,
            Seq::empty(),
            count,
            node as int,
        ),
        predecessors_passed(
            adjacency(adj_t@),
            old(comp)@,
            final(comp)@,
            Seq::empty(),
            -1,
            0,
        ),
{
    proof {
        reveal(collecting);
        reveal(predecessors_passed);
    }
    let n: usize = adj.len();
    let ghost graph = adjacency(adj@);
    let ghost back = adjacency(adj_t@);
    let ghost before = comp@;
    let ghost s = node as int;
    let mut stack: Vec<u32> = Vec::new();
    stack.push(node);
    comp.set(node as usize, count);
    proof {
        lemma_reach_refl(graph, s);
        lemma_falses_assign(before, s, count);
        assert(stack@.contains(s as u32)) by {
            assert(stack@[0] == node);
        }
    }
    while stack.len() > 0
        invariant
            n == adj@.len(),
            n == adj_t@.len(),
            n <= UNASSIGNED,
            graph == adjacency(adj@),
            back == adjacency(adj_t@),
            closed_graph(graph),
            transposed(graph, back),
            count < n,
            s == node,
            collecting(graph, back, before, comp@, stack@, count, s),
            predecessors_passed(back, before, comp@, stack@, -1, 0),
        decreases 2 * falses(assigned(comp@)) + stack@.len(),
    {
        proof {
            reveal(collecting);
            reveal(predecessors_passed);
        }
        let ghost full = stack@;
        let last: usize = stack.len() - 1;
        let u: u32 = stack[last];
        let popped = stack.pop();
        assert(stack@ =~= full.drop_last());
        assert(u == full.last());
        let mut index: usize = 0;
        let ghost entry = falses(assigned(comp@));
        proof {
            assert forall|v: int, c: int|
                0 <= v < comp@.len() && before[v] == UNASSIGNED && comp@[v] != UNASSIGNED
                    && 0 <= c < back[v].len() && !stack@.contains(v as u32) && (v != u as int
                    || c < 0) implies comp@[(#[trigger] back[v][c]) as int] != UNASSIGNED by {
                if full.contains(v as u32) {
                    let k = choose|k: int| 0 <= k < full.len() && full[k] == v as u32;
                    assert(k < full.len() - 1);
                    assert(stack@[k] == v as u32);
                }
            }
        }
        while index < adj_t[u as usize].len()
            invariant
                n == adj@.len(),
                n == adj_t@.len(),
                n <= UNASSIGNED,
                graph == adjacency(adj@),
                back == adjacency(adj_t@),
                closed_graph(graph),
                transposed(graph, back),
                count < n,
                u < n,
                s == node,
                index <= back[u as int].len(),
                before[u as int] == UNASSIGNED,
                comp@[u as int] == count,
                collecting(graph, back, before, comp@, stack@, count, s),
                predecessors_passed(back, before, comp@, stack@, u as int, index as int),
                2 * falses(assigned(comp@)) + stack@.len() < 2 * entry + full.len(),
            decreases back[u as int].len() - index,
        {
            proof {
                reveal(collecting);
                reveal(predecessors_passed);
            }
            assert(back[u as int] == adj_t@[u as int]@);
            let v: u32 = adj_t[u as usize][index];
            assert(back[u as int][index as int] == v);
            assert(v < n);
            let ghost old_comp = comp@;
            let ghost old_stack = stack@;
            if comp[v as usize] == UNASSIGNED {
                proof {
                    assert(edge(back, u as int, v as int));
                    assert(edge(graph, v as int, u as int));
                    lemma_reach_edge(graph, v as int, u as int);
                    lemma_reach_trans(graph, v as int, u as int, s);
                    lemma_falses_assign(comp@, v as int, count);
                }
                comp.set(v as usize, count);
                stack.push(v);
                proof {
                    assert(stack@[old_stack.len() as int] == v);
                    assert forall|w: int, c: int|
                        0 <= w < comp@.len() && before[w] == UNASSIGNED && comp@[w]
                            != UNASSIGNED && 0 <= c < back[w].len() && !stack@.contains(
                            w as u32,
                        ) && (w != u as int || c < index + 1) implies comp@[(
                    #[trigger] back[w][c]) as int] != UNASSIGNED by {
                        assert(w != v);
                        if old_stack.contains(w as u32) {
                            let k = choose|k: int|
                                0 <= k < old_stack.len() && old_stack[k] == w as u32;
                            assert(stack@[k] == w as u32);
                        }
                        assert(old_comp[w] != UNASSIGNED);
                        if w != u as int || c < index {
                            assert(old_comp[back[w][c] as int] != UNASSIGNED);
                        }
                    }
                }
            }
            index = index + 1;
        }
        proof {
            assert(adj_t@[u as int]@.len() == back[u as int].len());
        }
    }
    assert(stack@ =~= Seq::<u32>::empty());
}

/// The last node of a finish order that has no component yet is the head of its
/// component, and numbering it keeps the numbering.
proof fn lemma_numbered_new(
    adj: Adjacency,
    order: Seq<u32>,
    before: Seq<u32>,
    comp: Seq<u32>,
    count: u32,
    k: int,
)
    requires
        lists_all(order, adj.len() as int),
        0 <= k < order.len(),
        components_so_far(adj, before, count as int),
        components_so_far(adj, comp, count + 1),
        numbered(adj, order, before, k + 1),
        count == heads_from(adj, order, k + 1),
        before[order[k] as int] == UNASSIGNED,
        forall|j: int| k < j < order.len() ==> before[(#[trigger] order[j]) as int] != UNASSIGNED,
        exists|adj_t: Adjacency|
            #[trigger] collecting(adj, adj_t, before, comp, Seq::empty(), count, order[k] as int),
    ensures
        numbered(adj, order, comp, k),
        heads_from(adj, order, k) == count + 1,
{
    reveal(components_so_far);
    reveal(numbered);
    reveal(collecting);
    let s = order[k] as int;
    assert forall|j: int| k < j < order.len() implies !(#[trigger] mutual(
        adj,
        order[k] as int,
        order[j] as int,
    )) by {
        mutual_is_an_equivalence(adj, s, order[j] as int, s);
        assert(before[order[j] as int] != UNASSIGNED);
        if mutual(adj, s, order[j] as int) {
            assert(mutual(adj, order[j] as int, s));
        }
    }
    assert(is_head(adj, order, k));
    lemma_heads_step(adj, order, k);
    assert forall|i: int| k <= i < order.len() && is_head(adj, order, i) implies comp[(
    #[trigger] order[i]) as int] == heads_from(adj, order, i + 1) by {
        if i > k {
            assert(before[order[i] as int] != UNASSIGNED);
        }
    }
    assert forall|u: int| 0 <= u < comp.len() && (#[trigger] comp[u]) != UNASSIGNED implies joins(
        adj,
        order,
        k,
        u,
    ) by {
        if before[u] != UNASSIGNED {
            assert(joins(adj, order, k + 1, u));
            let j = choose|j: int|
                k + 1 <= j < order.len() && #[trigger] mutual(adj, u, order[j] as int);
            assert(mutual(adj, u, order[j] as int));
        } else {
            assert(comp[u] == comp[s]);
            assert(mutual(adj, u, order[k] as int));
        }
    }
}

/// A node that already has a component is no head, and passing it keeps the
/// numbering.
proof fn lemma_numbered_old(adj: Adjacency, order: Seq<u32>, comp: Seq<u32>, k: int)
    requires
        lists_all(order, adj.len() as int),
        comp.len() == adj.len(),
        0 <= k < order.len(),
        numbered(adj, order, comp, k + 1),
        comp[order[k] as int] != UNASSIGNED,
    ensures
        numbered(adj, order, comp, k),
        heads_from(adj, order, k) == heads_from(adj, order, k + 1),
{
    reveal(numbered);
    let u = order[k] as int;
    assert(joins(adj, order, k + 1, u));
    let j = choose|j: int| k + 1 <= j < order.len() && #[trigger] mutual(adj, u, order[j] as int);
    assert(mutual(adj, order[k] as int, order[j] as int));
    assert(!is_head(adj, order, k));
    lemma_heads_step(adj, order, k);
    assert forall|u: int| 0 <= u < comp.len() && (#[trigger] comp[u]) != UNASSIGNED implies joins(
        adj,
        order,
        k,
        u,
    ) by {
        assert(joins(adj, order, k + 1, u));
        let j = choose|j: int| k + 1 <= j < order.len() && #[trigger] mutual(adj, u, order[j] as int);
        assert(mutual(adj, u, order[j] as int));
    }
}

/// Numbers the strongly connected components: a depth-first finish order of the
/// graph, then one backward search per component in reverse finish order.
fn compute_sccs(adj: &Vec<Vec<u32>>, adj_t: &Vec<Vec<u32>>) -> (r: (usize, Vec<u32>))
    requires
        adj@.len() <= UNASSIGNED,
        closed_graph(adjacency(adj@)),
        transposed(adjacency(adj@), adjacency(adj_t@)),
    ensures
        is_components(adjacency(adj@), r.1@, r.0 as int),
        r.0 == component_count(adjacency(adj@)),
        forall|u: int|
            0 <= u < adj@.len() ==> (#[trigger] r.1@[u]) == component(adjacency(adj@), u),
        r.0 <= adj@.len(),
{
    let n: usize = adj.len();
    let ghost graph = adjacency(adj@);
    let ghost back = adjacency(adj_t@);
    let starts: Vec<u32> = count_up(n);
    let finish = dfs_finish(adj, &starts);
    assert(starts@ =~= ascending_ids(n as nat));

    let mut comp: Vec<u32> = Vec::new();
    let mut filled: usize = 0;
    while filled < n
        invariant
            filled <= n,
            comp@.len() == filled,
            forall|i: int| 0 <= i < filled ==> comp@[i] == UNASSIGNED,
        decreases n - filled,
    {
        comp.push(UNASSIGNED);
        filled = filled + 1;
    }
    let mut count: usize = 0;
    let mut left: usize = n;
    proof {
        lemma_heads_step(graph, finish@, n as int);
    }
    assert(components_so_far(graph, comp@, 0)) by {
        reveal(components_so_far);
    }
    assert(numbered(graph, finish@, comp@, n as int)) by {
        reveal(numbered);
    }
    while left > 0
        invariant
            n == adj@.len(),
            n == adj_t@.len(),
            n <= UNASSIGNED,
            graph == adjacency(adj@),
            back == adjacency(adj_t@),
            closed_graph(graph),
            transposed(graph, back),
            lists_all(finish@, n as int),
            finish_order(graph, finish@),
            left <= n,
            count <= n - left,
            comp@.len() == n,
            components_so_far(graph, comp@, count as int),
            count == heads_from(graph, finish@, left as int),
            numbered(graph, finish@, comp@, left as int),
            forall|j: int|
                left <= j < n ==> comp@[(#[trigger] finish@[j]) as int] != UNASSIGNED,
        decreases left,
    {
        left = left - 1;
        let node: u32 = finish[left];
        if comp[node as usize] == UNASSIGNED {
            let ghost before = comp@;
            collect_component(adj, adj_t, &mut comp, node, count as u32);
            proof {
                lemma_component_complete(
                    graph,
                    back,
                    finish@,
                    before,
                    comp@,
                    count as u32,
                    left as int,
                );
                lemma_numbered_new(graph, finish@, before, comp@, count as u32, left as int);
            }
            count = count + 1;
        } else {
            proof {
                lemma_numbered_old(graph, finish@, comp@, left as int);
            }
        }
    }
    proof {
        assert forall|u: int| 0 <= u < comp@.len() implies (#[trigger] comp@[u]) != UNASSIGNED by {
            assert(listed(finish@, u));
        }
        reveal(components_so_far);
        assert forall|u: int| 0 <= u < n implies (#[trigger] comp@[u]) == component(graph, u) by {
            lemma_component_number(graph, finish@, comp@, u);
        }
    }
    (count, comp)
}

/// Giving a node its component leaves one unassigned node less.
proof fn lemma_falses_assign(comp: Seq<u32>, u: int, c: u32)
    requires
        0 <= u < comp.len(),
        comp[u] == UNASSIGNED,
        c != UNASSIGNED,
    ensures
        falses(assigned(comp.update(u, c))) + 1 == falses(assigned(comp)),
{
    assert(assigned(comp.update(u, c)) =~= assigned(comp).update(u, true));
    lemma_falses_update(assigned(comp), u);
}

/// Once nothing is left to search, the nodes collected for `finish[k]` are its
/// whole strongly connected component.
proof fn lemma_component_complete(
    adj: Adjacency,
    adj_t: Adjacency,
    finish: Seq<u32>,
    before: Seq<u32>,
    comp: Seq<u32>,
    count: u32,
    k: int,
)
    requires
        closed_graph(adj),
        transposed(adj, adj_t),
        lists_all(finish, adj.len() as int),
        finish_order(adj, finish),
        0 <= k < finish.len(),
        components_so_far(adj, before, count as int),
        before[finish[k] as int] == UNASSIGNED,
        forall|j: int| k < j < finish.len() ==> before[(#[trigger] finish[j]) as int] != UNASSIGNED,
        count < UNASSIGNED,
        collecting(adj, adj_t, before, comp, Seq::empty(), count, finish[k] as int),
        predecessors_passed(adj_t, before, comp, Seq::empty(), -1, 0),
    ensures
        components_so_far(adj, comp, count + 1),
        comp.len() == adj.len(),
        forall|j: int| k <= j < finish.len() ==> comp[(#[trigger] finish[j]) as int] != UNASSIGNED,
{
    reveal(components_so_far);
    reveal(collecting);
    reveal(predecessors_passed);
    let s = finish[k] as int;
    let taken = assigned(before);
    assert forall|u: int|
        0 <= u < comp.len() && before[u] == UNASSIGNED && (#[trigger] comp[u])
            != UNASSIGNED implies mutual(adj, s, u) by {
        assert(!taken[u]);
        lemma_last_reaches_back(adj, finish, taken, k, u);
    }
    let now = assigned(comp);
    assert forall|t: int| 0 <= t < comp.len() && #[trigger] mutual(adj, s, t) implies comp[t]
        != UNASSIGNED && before[t] == UNASSIGNED by {
        if before[t] != UNASSIGNED {
            mutual_is_an_equivalence(adj, s, t, s);
            assert(mutual(adj, t, s));
            assert(false);
        }
        let steps = choose|steps: nat| #[trigger] reach_in(adj, t, s, steps);
        assert forall|u: int, v: int|
            0 <= u < adj.len() && now[u] && mutual(adj, s, u) && #[trigger] edge(adj_t, u, v)
                && mutual(adj, s, v) implies now[v] by {
            if before[u] != UNASSIGNED {
                mutual_is_an_equivalence(adj, s, u, s);
                assert(mutual(adj, u, s));
                assert(false);
            }
            let c = choose|c: int| 0 <= c < adj_t[u].len() && #[trigger] adj_t[u][c] == v;
            assert(!Seq::<u32>::empty().contains(u as u32));
            assert(comp[adj_t[u][c] as int] != UNASSIGNED);
            assert(0 <= v < adj.len());
        }
        lemma_backward_closed(adj, adj_t, now, s, t, steps);
    }
    assert forall|u: int, v: int|
        0 <= u < comp.len() && 0 <= v < comp.len() && comp[u] != UNASSIGNED && comp[v]
            != UNASSIGNED implies ((#[trigger] comp[u]) == (#[trigger] comp[v]) <==> mutual(
        adj,
        u,
        v,
    )) by {
        mutual_is_an_equivalence(adj, u, s, v);
        mutual_is_an_equivalence(adj, v, s, u);
        mutual_is_an_equivalence(adj, s, u, v);
        mutual_is_an_equivalence(adj, s, v, u);
        if before[u] != UNASSIGNED && before[v] != UNASSIGNED {
            assert(comp[u] == before[u] && comp[v] == before[v]);
        } else if before[u] == UNASSIGNED && before[v] == UNASSIGNED {
            assert(mutual(adj, s, u) && mutual(adj, s, v));
        } else if before[u] == UNASSIGNED {
            assert(mutual(adj, s, u));
            assert(before[v] < count);
            if mutual(adj, u, v) {
                assert(mutual(adj, s, v));
            }
        } else {
            assert(mutual(adj, s, v));
            assert(before[u] < count);
            if mutual(adj, u, v) {
                assert(mutual(adj, v, u));
                assert(mutual(adj, s, u));
            }
        }
    }
    assert forall|u: int, v: int|
        0 <= u < comp.len() && 0 <= v < comp.len() && comp[u] != UNASSIGNED && #[trigger] mutual(
            adj,
            u,
            v,
        ) implies comp[v] != UNASSIGNED by {
        if before[u] == UNASSIGNED {
            assert(mutual(adj, s, u));
            mutual_is_an_equivalence(adj, s, u, v);
            assert(mutual(adj, s, v));
        } else {
            assert(before[v] != UNASSIGNED);
            assert(comp[v] == before[v]);
        }
    }
    assert forall|c: int| 0 <= c < count + 1 implies #[trigger] has_member(comp, c) by {
        if c < count {
            assert(has_member(before, c));
            let u = choose|u: int| 0 <= u < before.len() && #[trigger] before[u] == c;
            assert(comp[u] == c);
        } else {
            assert(comp[s] == c);
        }
    }
    assert forall|u: int|
        0 <= u < comp.len() && (#[trigger] comp[u]) != UNASSIGNED implies comp[u] < count + 1 by {
        if before[u] != UNASSIGNED {
            assert(before[u] < count);
        }
    }
    assert forall|j: int| k <= j < finish.len() implies comp[(#[trigger] finish[j]) as int]
        != UNASSIGNED by {
        if j > k {
            assert(before[finish[j] as int] != UNASSIGNED);
        }
    }
}

/// The numbers below `n` in ascending order.
fn count_up(n: usize) -> (r: Vec<u32>)
    requires
        n <= UNASSIGNED,
    ensures
        lists_all(r@, n as int),
        forall|i: int| 0 <= i < n ==> r@[i] == i,
{
    let mut numbers: Vec<u32> = Vec::new();
    let mut next: usize = 0;
    while next < n
        invariant
            next <= n,
            n <= UNASSIGNED,
            numbers@.len() == next,
            forall|i: int| 0 <= i < next ==> numbers@[i] == i,
        decreases n - next,
    {
        numbers.push(next as u32);
        next = next + 1;
    }
    proof {
        assert forall|u: int| 0 <= u < n implies #[trigger] listed(numbers@, u) by {
            assert(numbers@[u] == u);
        }
    }
    numbers
}

/// The targets of the edges that leave `u`, among the first `k`, in edge order.
pub open spec fn targets(edges: Seq<(u32, u32)>, u: int, k: int) -> Seq<u32>
    decreases k,
{
    if k <= 0 {
        Seq::empty()
    } else {
        let before = targets(edges, u, k - 1);
        if edges[k - 1].0 == u {
            before.push(edges[k - 1].1)
        } else {
            before
        }
    }
}

/// The graph that a list of edges over the nodes below `n` denotes, with each
/// node's successors in ascending order.
pub open spec fn edge_graph(edges: Seq<(u32, u32)>, n: nat) -> Adjacency {
    Seq::new(n, |u: int| sorted(targets(edges, u, edges.len() as int)))
}

/// `items` without those that repeat their predecessor.
pub open spec fn distinct(items: Seq<u32>) -> Seq<u32>
    decreases items.len(),
{
    if items.len() == 0 {
        Seq::empty()
    } else {
        let before = distinct(items.drop_last());
        if before.len() > 0 && before.last() == items.last() {
            before
        } else {
            before.push(items.last())
        }
    }
}

/// The edges between different components, among the first `k` edges.
pub open spec fn cross_edges(edges: Seq<(u32, u32)>, comp: Seq<u32>, k: int) -> Seq<(u32, u32)>
    decreases k,
{
    if k <= 0 {
        Seq::empty()
    } else {
        let before = cross_edges(edges, comp, k - 1);
        let from = comp[edges[k - 1].0 as int];
        let to = comp[edges[k - 1].1 as int];
        if from != to {
            before.push((from, to))
        } else {
            before
        }
    }
}

/// The graph of the components: one edge per pair of components that an edge
/// joins, with each component's successors in ascending order.
pub open spec fn condensation(edges: Seq<(u32, u32)>, comp: Seq<u32>, count: nat) -> Adjacency {
    let cross = cross_edges(edges, comp, edges.len() as int);
    Seq::new(count, |c: int| distinct(sorted(targets(cross, c, cross.len() as int))))
}

/// `root` followed by the other numbers below `n` in ascending order.
pub open spec fn root_first(root: u32, n: nat) -> Seq<u32> {
    seq![root] + others(root, n)
}

pub open spec fn others(root: u32, n: nat) -> Seq<u32>
    decreases n,
{
    if n == 0 {
        Seq::empty()
    } else if n - 1 == root {
        others(root, (n - 1) as nat)
    } else {
        others(root, (n - 1) as nat).push((n - 1) as u32)
    }
}

/// The nodes below `k` of component `c`, in ascending order.
pub open spec fn members(comp: Seq<u32>, c: u32, k: nat) -> Seq<u32>
    decreases k,
{
    if k == 0 {
        Seq::empty()
    } else {
        let before = members(comp, c, (k - 1) as nat);
        if comp[k - 1] == c {
            before.push((k - 1) as u32)
        } else {
            before
        }
    }
}

/// The component of every node.
pub open spec fn components(adj: Adjacency) -> Seq<u32> {
    Seq::new(adj.len(), |u: int| component(adj, u))
}

/// The dependency-first order of a graph: its components in the order in which a
/// depth-first walk of the component graph from the root's component leaves
/// them, each as its nodes in ascending order.
pub open spec fn dependency_groups_spec(edges: Seq<(u32, u32)>, n: nat) -> Seq<Seq<u32>> {
    if n == 0 {
        Seq::empty()
    } else {
        let comp = components(edge_graph(edges, n));
        let count = component_count(edge_graph(edges, n));
        let order = depth_first(condensation(edges, comp, count), root_first(comp[0], count));
        Seq::new(order.len(), |g: int| members(comp, order[g], n))
    }
}

/// Whether `groups` put every node below `adj.len()` into exactly one group,
/// two nodes into the same group exactly when they reach each other, providers
/// into no later group than their requesters, and each group into ascending
/// order.
pub open spec fn is_dependency_order(adj: Adjacency, groups: Seq<Seq<u32>>) -> bool {
    &&& forall|g: int, i: int|
        0 <= g < groups.len() && 0 <= i < groups[g].len() ==> (#[trigger] groups[g][i]) < adj.len()
    &&& forall|u: int| 0 <= u < adj.len() ==> #[trigger] in_some_group(groups, u)
    &&& forall|g: int, i: int, h: int, j: int|
        #![trigger groups[g][i], groups[h][j]]
        0 <= g < groups.len() && 0 <= i < groups[g].len() && 0 <= h < groups.len() && 0 <= j
            < groups[h].len() ==> {
            &&& mutual(adj, groups[g][i] as int, groups[h][j] as int) <==> g == h
            &&& groups[g][i] == groups[h][j] ==> i == j
            &&& edge(adj, groups[g][i] as int, groups[h][j] as int) ==> h <= g
            &&& g == h && i < j ==> groups[g][i] < groups[h][j]
        }
    &&& forall|g: int| 0 <= g < groups.len() ==> (#[trigger] groups[g]).len() > 0
}

pub open spec fn in_some_group(groups: Seq<Seq<u32>>, u: int) -> bool {
    exists|g: int, i: int|
        0 <= g < groups.len() && 0 <= i < groups[g].len() && #[trigger] groups[g][i] == u
}

/// Whatever a node depends on, directly or not, comes in no later group.
pub proof fn everything_needed_comes_first(
    adj: Adjacency,
    groups: Seq<Seq<u32>>,
    g: int,
    i: int,
    h: int,
    j: int,
)
    requires
        closed_graph(adj),
        is_dependency_order(adj, groups),
        0 <= g < groups.len(),
        0 <= i < groups[g].len(),
        0 <= h < groups.len(),
        0 <= j < groups[h].len(),
        reach(adj, groups[g][i] as int, groups[h][j] as int),
    ensures
        h <= g,
{
    let steps = choose|steps: nat|
        #[trigger] reach_in(adj, groups[g][i] as int, groups[h][j] as int, steps);
    lemma_needed_first(adj, groups, g, i, h, j, steps);
}

proof fn lemma_needed_first(
    adj: Adjacency,
    groups: Seq<Seq<u32>>,
    g: int,
    i: int,
    h: int,
    j: int,
    steps: nat,
)
    requires
        closed_graph(adj),
        is_dependency_order(adj, groups),
        0 <= g < groups.len(),
        0 <= i < groups[g].len(),
        0 <= h < groups.len(),
        0 <= j < groups[h].len(),
        reach_in(adj, groups[g][i] as int, groups[h][j] as int, steps),
    ensures
        h <= g,
    decreases steps,
{
    let u = groups[g][i] as int;
    let v = groups[h][j] as int;
    if steps == 0 {
        mutual_is_an_equivalence(adj, u, u, u);
        assert(mutual(adj, groups[g][i] as int, groups[h][j] as int));
    } else {
        let w = choose|w: int| #[trigger] edge(adj, u, w) && reach_in(adj, w, v, (steps - 1) as nat);
        assert(0 <= w < adj.len());
        assert(in_some_group(groups, w));
        let (m, k) = choose|m: int, k: int|
            0 <= m < groups.len() && 0 <= k < groups[m].len() && #[trigger] groups[m][k] == w;
        assert(edge(adj, groups[g][i] as int, groups[m][k] as int));
        lemma_needed_first(adj, groups, m, k, h, j, (steps - 1) as nat);
    }
}

proof fn lemma_targets(edges: Seq<(u32, u32)>, u: int, k: int, v: u32)
    requires
        0 <= k <= edges.len(),
        0 <= u <= u32::MAX,
    ensures
        targets(edges, u, k).contains(v) <==> exists|e: int|
            0 <= e < k && #[trigger] edges[e] == (u as u32, v),
    decreases k,
{
    if k > 0 {
        lemma_targets(edges, u, k - 1, v);
        let before = targets(edges, u, k - 1);
        let now = targets(edges, u, k);
        if before.contains(v) {
            let e = choose|e: int| 0 <= e < k - 1 && #[trigger] edges[e] == (u as u32, v);
            assert(edges[e] == (u as u32, v));
            let i = choose|i: int| 0 <= i < before.len() && before[i] == v;
            assert(now[i] == v);
        }
        if edges[k - 1] == (u as u32, v) {
            assert(now[before.len() as int] == v);
        }
        if now.contains(v) {
            let i = choose|i: int| 0 <= i < now.len() && now[i] == v;
            if i < before.len() {
                assert(before[i] == v);
                assert(before.contains(v));
            } else {
                assert(edges[k - 1] == (u as u32, v));
            }
        }
        if exists|e: int| 0 <= e < k && #[trigger] edges[e] == (u as u32, v) {
            let e = choose|e: int| 0 <= e < k && #[trigger] edges[e] == (u as u32, v);
            if e < k - 1 {
                assert(before.contains(v));
            }
        }
    }
}

/// There is an edge in the graph exactly where the list has one.
pub proof fn edge_graph_has_the_edges(edges: Seq<(u32, u32)>, n: nat, u: int, v: int)
    requires
        n <= u32::MAX,
        forall|e: int| 0 <= e < edges.len() ==> (#[trigger] edges[e]).0 < n && edges[e].1 < n,
    ensures
        closed_graph(edge_graph(edges, n)),
        edge(edge_graph(edges, n), u, v) <==> exists|e: int|
            0 <= e < edges.len() && (#[trigger] edges[e]).0 == u && edges[e].1 == v,
{
    let adj = edge_graph(edges, n);
    let all = edges.len() as int;
    assert forall|a: int, k: int| 0 <= a < adj.len() && 0 <= k < adj[a].len() implies (
    #[trigger] adj[a][k]) < adj.len() by {
        let w = adj[a][k];
        assert(adj[a].contains(w));
        sorting_keeps_the_items(targets(edges, a, all), w);
        lemma_targets(edges, a, all, w);
        let e = choose|e: int| 0 <= e < all && #[trigger] edges[e] == (a as u32, w);
        assert(edges[e].1 < n);
    }
    if edge(adj, u, v) {
        let k = choose|k: int| 0 <= k < adj[u].len() && #[trigger] adj[u][k] == v;
        let w = adj[u][k];
        assert(adj[u].contains(w));
        sorting_keeps_the_items(targets(edges, u, all), w);
        lemma_targets(edges, u, all, w);
        let e = choose|e: int| 0 <= e < all && #[trigger] edges[e] == (u as u32, w);
        assert(edges[e].0 == u && edges[e].1 == v);
    }
    if exists|e: int| 0 <= e < edges.len() && (#[trigger] edges[e]).0 == u && edges[e].1 == v {
        let e = choose|e: int|
            0 <= e < edges.len() && (#[trigger] edges[e]).0 == u && edges[e].1 == v;
        lemma_targets(edges, u, all, edges[e].1);
        assert(edges[e] == (u as u32, edges[e].1));
        sorting_keeps_the_items(targets(edges, u, all), edges[e].1);
        let k = choose|k: int| 0 <= k < adj[u].len() && adj[u][k] == edges[e].1;
        assert(adj[u][k] == v);
    }
}

proof fn lemma_cross(edges: Seq<(u32, u32)>, comp: Seq<u32>, k: int, a: u32, b: u32)
    requires
        0 <= k <= edges.len(),
    ensures
        cross_edges(edges, comp, k).contains((a, b)) <==> a != b && exists|e: int|
            0 <= e < k && comp[(#[trigger] edges[e]).0 as int] == a && comp[edges[e].1 as int] == b,
    decreases k,
{
    if k > 0 {
        lemma_cross(edges, comp, k - 1, a, b);
        let before = cross_edges(edges, comp, k - 1);
        let now = cross_edges(edges, comp, k);
        let last = (comp[edges[k - 1].0 as int], comp[edges[k - 1].1 as int]);
        if before.contains((a, b)) {
            let i = choose|i: int| 0 <= i < before.len() && before[i] == (a, b);
            assert(now[i] == (a, b));
            let e = choose|e: int|
                0 <= e < k - 1 && comp[(#[trigger] edges[e]).0 as int] == a && comp[edges[e].1 as int]
                    == b;
            assert(comp[edges[e].0 as int] == a && comp[edges[e].1 as int] == b);
        }
        if last == (a, b) && a != b {
            assert(now[before.len() as int] == (a, b));
            assert(comp[edges[k - 1].0 as int] == a);
        }
        if now.contains((a, b)) {
            let i = choose|i: int| 0 <= i < now.len() && now[i] == (a, b);
            if i < before.len() {
                assert(before[i] == (a, b));
                assert(before.contains((a, b)));
            }
        }
        if a != b && exists|e: int|
            0 <= e < k && comp[(#[trigger] edges[e]).0 as int] == a && comp[edges[e].1 as int] == b {
            let e = choose|e: int|
                0 <= e < k && comp[(#[trigger] edges[e]).0 as int] == a && comp[edges[e].1 as int]
                    == b;
            if e < k - 1 {
                assert(before.contains((a, b)));
            }
        }
    }
}

proof fn lemma_distinct(items: Seq<u32>, v: u32)
    ensures
        distinct(items).contains(v) <==> items.contains(v),
        items.len() > 0 ==> distinct(items).len() > 0 && distinct(items).last() == items.last(),
    decreases items.len(),
{
    if items.len() > 0 {
        let front = items.drop_last();
        lemma_distinct(front, v);
        let before = distinct(front);
        let now = distinct(items);
        if before.contains(v) {
            let i = choose|i: int| 0 <= i < before.len() && before[i] == v;
            assert(now[i] == v);
        }
        if front.contains(v) {
            let i = choose|i: int| 0 <= i < front.len() && front[i] == v;
            assert(items[i] == v);
        }
        if items.last() == v {
            assert(items[items.len() - 1] == v);
            assert(now[now.len() - 1] == v);
        }
        if now.contains(v) && v != items.last() {
            let i = choose|i: int| 0 <= i < now.len() && now[i] == v;
            assert(before[i] == v);
            assert(before.contains(v));
        }
        if items.contains(v) && v != items.last() {
            let i = choose|i: int| 0 <= i < items.len() && items[i] == v;
            assert(front[i] == v);
            assert(front.contains(v));
        }
    }
}

/// Two components are joined in the component graph exactly when an edge joins
/// them and they differ.
proof fn lemma_condensation(
    edges: Seq<(u32, u32)>,
    comp: Seq<u32>,
    count: nat,
    n: nat,
    a: int,
    b: int,
)
    requires
        count <= u32::MAX,
        comp.len() == n,
        forall|e: int| 0 <= e < edges.len() ==> (#[trigger] edges[e]).0 < n && edges[e].1 < n,
        forall|u: int| 0 <= u < n ==> (#[trigger] comp[u]) < count,
    ensures
        closed_graph(condensation(edges, comp, count)),
        edge(condensation(edges, comp, count), a, b) <==> a != b && exists|e: int|
            0 <= e < edges.len() && comp[(#[trigger] edges[e]).0 as int] == a
                && comp[edges[e].1 as int] == b,
{
    let cond = condensation(edges, comp, count);
    let cross = cross_edges(edges, comp, edges.len() as int);
    let all = cross.len() as int;
    assert forall|c: int, w: u32| 0 <= c < count implies (#[trigger] cond[c].contains(w)
        <==> c != w && exists|e: int|
        0 <= e < edges.len() && comp[(#[trigger] edges[e]).0 as int] == c && comp[edges[e].1 as int]
            == w) by {
        let direct = targets(cross, c, all);
        lemma_distinct(sorted(direct), w);
        sorting_keeps_the_items(direct, w);
        lemma_targets(cross, c, all, w);
        lemma_cross(edges, comp, edges.len() as int, c as u32, w);
        if direct.contains(w) {
            let e = choose|e: int| 0 <= e < all && #[trigger] cross[e] == (c as u32, w);
            assert(cross.contains((c as u32, w)));
        }
        if cross.contains((c as u32, w)) {
            let e = choose|e: int| 0 <= e < all && cross[e] == (c as u32, w);
            assert(cross[e] == (c as u32, w));
        }
    }
    assert forall|c: int, k: int| 0 <= c < cond.len() && 0 <= k < cond[c].len() implies (
    #[trigger] cond[c][k]) < cond.len() by {
        assert(cond[c].contains(cond[c][k]));
        let e = choose|e: int|
            0 <= e < edges.len() && comp[(#[trigger] edges[e]).0 as int] == c
                && comp[edges[e].1 as int] == cond[c][k];
        assert(comp[edges[e].1 as int] < count);
    }
    if edge(cond, a, b) {
        let k = choose|k: int| 0 <= k < cond[a].len() && #[trigger] cond[a][k] == b;
        assert(cond[a].contains(cond[a][k]));
    }
    if a != b && exists|e: int|
        0 <= e < edges.len() && comp[(#[trigger] edges[e]).0 as int] == a && comp[edges[e].1 as int]
            == b {
        let e = choose|e: int|
            0 <= e < edges.len() && comp[(#[trigger] edges[e]).0 as int] == a
                && comp[edges[e].1 as int] == b;
        assert(edges[e].0 < n && edges[e].1 < n);
        assert(comp[edges[e].0 as int] < count);
        assert(cond[a].contains(b as u32));
        let k = choose|k: int| 0 <= k < cond[a].len() && cond[a][k] == b as u32;
        assert(cond[a][k] == b);
    }
}

/// A path between components is a path between any of their nodes.
proof fn lemma_lift(
    edges: Seq<(u32, u32)>,
    n: nat,
    comp: Seq<u32>,
    count: nat,
    x: int,
    y: int,
    steps: nat,
)
    requires
        n <= u32::MAX,
        count <= u32::MAX,
        forall|e: int| 0 <= e < edges.len() ==> (#[trigger] edges[e]).0 < n && edges[e].1 < n,
        is_components(edge_graph(edges, n), comp, count as int),
        0 <= x < n,
        0 <= y < n,
        reach_in(condensation(edges, comp, count), comp[x] as int, comp[y] as int, steps),
    ensures
        reach(edge_graph(edges, n), x, y),
    decreases steps,
{
    let adj = edge_graph(edges, n);
    let cond = condensation(edges, comp, count);
    if steps == 0 {
        assert(comp[x] == comp[y]);
        assert(mutual(adj, x, y));
    } else {
        let c = choose|c: int|
            #[trigger] edge(cond, comp[x] as int, c) && reach_in(
                cond,
                c,
                comp[y] as int,
                (steps - 1) as nat,
            );
        lemma_condensation(edges, comp, count, n, comp[x] as int, c);
        let e = choose|e: int|
            0 <= e < edges.len() && comp[(#[trigger] edges[e]).0 as int] == comp[x] as int
                && comp[edges[e].1 as int] == c;
        let (p, q) = (edges[e].0 as int, edges[e].1 as int);
        edge_graph_has_the_edges(edges, n, p, q);
        assert(mutual(adj, x, p));
        lemma_reach_edge(adj, p, q);
        lemma_reach_trans(adj, x, p, q);
        lemma_lift(edges, n, comp, count, q, y, (steps - 1) as nat);
        lemma_reach_trans(adj, x, q, y);
    }
}

proof fn lemma_members(comp: Seq<u32>, c: u32, k: nat)
    requires
        k <= comp.len(),
        k <= u32::MAX,
    ensures
        forall|i: int|
            0 <= i < members(comp, c, k).len() ==> (#[trigger] members(comp, c, k)[i]) < k
                && comp[members(comp, c, k)[i] as int] == c,
        forall|i: int, j: int|
            0 <= i < j < members(comp, c, k).len() ==> (#[trigger] members(comp, c, k)[i]) < (
            #[trigger] members(comp, c, k)[j]),
        forall|u: int|
            0 <= u < k && #[trigger] comp[u] == c ==> listed(members(comp, c, k), u),
    decreases k,
{
    if k > 0 {
        lemma_members(comp, c, (k - 1) as nat);
        let before = members(comp, c, (k - 1) as nat);
        let now = members(comp, c, k);
        assert forall|u: int| 0 <= u < k && #[trigger] comp[u] == c implies listed(now, u) by {
            if u < k - 1 {
                assert(listed(before, u));
                let i = choose|i: int| 0 <= i < before.len() && #[trigger] before[i] == u;
                assert(now[i] == u);
            } else {
                assert(now[before.len() as int] == u);
            }
        }
    }
}

/// The groups of a finish order of the component graph are a dependency order.
proof fn lemma_groups_in_order(
    edges: Seq<(u32, u32)>,
    n: nat,
    comp: Seq<u32>,
    count: nat,
    order: Seq<u32>,
    groups: Seq<Seq<u32>>,
)
    requires
        n <= u32::MAX,
        count <= u32::MAX,
        forall|e: int| 0 <= e < edges.len() ==> (#[trigger] edges[e]).0 < n && edges[e].1 < n,
        is_components(edge_graph(edges, n), comp, count as int),
        lists_all(order, count as int),
        finish_order(condensation(edges, comp, count), order),
        groups.len() == order.len(),
        forall|g: int| 0 <= g < groups.len() ==> #[trigger] groups[g] == members(comp, order[g], n),
    ensures
        is_dependency_order(edge_graph(edges, n), groups),
{
    let adj = edge_graph(edges, n);
    let cond = condensation(edges, comp, count);
    assert forall|g: int| 0 <= g < groups.len() implies (#[trigger] groups[g]).len() > 0 by {
        lemma_members(comp, order[g], n);
        assert(has_member(comp, order[g] as int));
        let u = choose|u: int| 0 <= u < comp.len() && #[trigger] comp[u] == order[g] as int;
        assert(listed(groups[g], u));
    }
    assert forall|u: int| 0 <= u < adj.len() implies #[trigger] in_some_group(groups, u) by {
        assert(comp[u] < count);
        assert(listed(order, comp[u] as int));
        let g = choose|g: int| 0 <= g < order.len() && #[trigger] order[g] == comp[u];
        lemma_members(comp, order[g], n);
        assert(listed(groups[g], u));
        let i = choose|i: int| 0 <= i < groups[g].len() && #[trigger] groups[g][i] == u;
        assert(groups[g][i] == u);
    }
    assert forall|g: int, i: int| 0 <= g < groups.len() && 0 <= i < groups[g].len() implies (
    #[trigger] groups[g][i]) < adj.len() && comp[groups[g][i] as int] == order[g] by {
        lemma_members(comp, order[g], n);
    }
    assert forall|g: int, i: int, h: int, j: int|
        #![trigger groups[g][i], groups[h][j]]
        0 <= g < groups.len() && 0 <= i < groups[g].len() && 0 <= h < groups.len() && 0 <= j
            < groups[h].len() implies {
        &&& mutual(adj, groups[g][i] as int, groups[h][j] as int) <==> g == h
        &&& groups[g][i] == groups[h][j] ==> i == j
        &&& edge(adj, groups[g][i] as int, groups[h][j] as int) ==> h <= g
        &&& g == h && i < j ==> groups[g][i] < groups[h][j]
    } by {
        lemma_members(comp, order[g], n);
        lemma_members(comp, order[h], n);
        let (u, v) = (groups[g][i] as int, groups[h][j] as int);
        assert(comp[u] == order[g] && comp[v] == order[h]);
        assert(comp[u] == comp[v] <==> mutual(adj, u, v));
        if order[g] == order[h] {
            assert(g == h);
        }
        if groups[g][i] == groups[h][j] {
            mutual_is_an_equivalence(adj, u, u, u);
            assert(g == h);
            if i < j {
                assert(groups[g][i] < groups[g][j]);
            } else if j < i {
                assert(groups[g][j] < groups[g][i]);
            }
        }
        if edge(adj, u, v) && g != h {
            edge_graph_has_the_edges(edges, n, u, v);
            lemma_condensation(edges, comp, count, n, comp[u] as int, comp[v] as int);
            let e = choose|e: int|
                0 <= e < edges.len() && (#[trigger] edges[e]).0 == u && edges[e].1 == v;
            assert(comp[edges[e].0 as int] == comp[u] && comp[edges[e].1 as int] == comp[v]);
            assert(edge(cond, comp[u] as int, comp[v] as int));
            lemma_reach_edge(cond, comp[u] as int, comp[v] as int);
            assert(reach(cond, order[g] as int, comp[v] as int));
            if exists|k: int| 0 <= k <= g && #[trigger] order[k] == comp[v] as int {
                let k = choose|k: int| 0 <= k <= g && #[trigger] order[k] == comp[v] as int;
                assert(k == h);
            } else {
                let k = choose|k: int|
                    g < k < order.len() && #[trigger] mutual(cond, order[g] as int, order[k] as int);
                assert(has_member(comp, order[k] as int));
                let w = choose|w: int| 0 <= w < comp.len() && #[trigger] comp[w] == order[k] as int;
                let there = choose|steps: nat|
                    #[trigger] reach_in(cond, order[g] as int, order[k] as int, steps);
                let back = choose|steps: nat|
                    #[trigger] reach_in(cond, order[k] as int, order[g] as int, steps);
                lemma_lift(edges, n, comp, count, u, w, there);
                lemma_lift(edges, n, comp, count, w, u, back);
                assert(mutual(adj, u, w));
                assert(comp[u] == comp[w]);
                assert(false);
            }
        }
    }
}

/// The successor lists of `edges`, each in ascending order.
fn successor_lists(edges: &Vec<(u32, u32)>, n: usize) -> (r: Vec<Vec<u32>>)
    requires
        forall|e: int| 0 <= e < edges@.len() ==> (#[trigger] edges@[e]).0 < n,
    ensures
        r@.len() == n,
        forall|u: int|
            0 <= u < n ==> (#[trigger] r@[u])@ == sorted(targets(edges@, u, edges@.len() as int)),
{
    let mut lists: Vec<Vec<u32>> = Vec::new();
    let mut node: usize = 0;
    while node < n
        invariant
            node <= n,
            lists@.len() == node,
            forall|u: int|
                0 <= u < node ==> (#[trigger] lists@[u])@ == sorted(
                    targets(edges@, u, edges@.len() as int),
                ),
        decreases n - node,
    {
        let mut successors: Vec<u32> = Vec::new();
        let mut index: usize = 0;
        while index < edges.len()
            invariant
                index <= edges@.len(),
                successors@ == targets(edges@, node as int, index as int),
            decreases edges@.len() - index,
        {
            let (from, to) = edges[index];
            if from as usize == node {
                successors.push(to);
            }
            index = index + 1;
        }
        lists.push(sort_by_rank(&successors));
        node = node + 1;
    }
    lists
}

/// `items` without those that repeat their predecessor.
fn dedup(items: &Vec<u32>) -> (r: Vec<u32>)
    ensures
        r@ == distinct(items@),
{
    let mut kept: Vec<u32> = Vec::new();
    let mut index: usize = 0;
    while index < items.len()
        invariant
            index <= items@.len(),
            kept@ == distinct(items@.take(index as int)),
        decreases items@.len() - index,
    {
        assert(items@.take(index + 1).drop_last() =~= items@.take(index as int));
        let item: u32 = items[index];
        if kept.len() == 0 || kept[kept.len() - 1] != item {
            kept.push(item);
        }
        index = index + 1;
    }
    assert(items@.take(index as int) =~= items@);
    kept
}

/// The edges of `edges`, turned round.
fn turned(edges: &Vec<(u32, u32)>) -> (r: Vec<(u32, u32)>)
    ensures
        r@.len() == edges@.len(),
        forall|e: int| 0 <= e < r@.len() ==> #[trigger] r@[e] == (edges@[e].1, edges@[e].0),
{
    let mut result: Vec<(u32, u32)> = Vec::new();
    let mut index: usize = 0;
    while index < edges.len()
        invariant
            index <= edges@.len(),
            result@.len() == index,
            forall|e: int|
                0 <= e < index ==> #[trigger] result@[e] == (edges@[e].1, edges@[e].0),
        decreases edges@.len() - index,
    {
        let (from, to) = edges[index];
        result.push((to, from));
        index = index + 1;
    }
    result
}

/// Depth-first post-order of the component graph: the root's component is walked
/// first, then any component it does not reach, in ascending order.
fn dfs_post_order(adj: &Vec<Vec<u32>>, root: u32) -> (finish: Vec<u32>)
    requires
        adj@.len() <= UNASSIGNED,
        closed_graph(adjacency(adj@)),
        root < adj@.len(),
    ensures
        finish@ == depth_first(adjacency(adj@), root_first(root, adj@.len())),
        lists_all(finish@, adj@.len() as int),
        finish_order(adjacency(adj@), finish@),
{
    let n: usize = adj.len();
    let mut starts: Vec<u32> = Vec::new();
    starts.push(root);
    let mut next: usize = 0;
    while next < n
        invariant
            next <= n,
            n <= UNASSIGNED,
            starts@ =~= root_first(root, next as nat),
        decreases n - next,
    {
        if next as u32 != root {
            starts.push(next as u32);
        }
        next = next + 1;
    }
    proof {
        lemma_root_first(root, n as nat);
    }
    dfs_finish(adj, &starts)
}

proof fn lemma_others(root: u32, n: nat)
    requires
        n <= u32::MAX,
    ensures
        forall|i: int|
            0 <= i < others(root, n).len() ==> (#[trigger] others(root, n)[i]) < n && others(
                root,
                n,
            )[i] != root,
        forall|u: int| 0 <= u < n && u != root ==> #[trigger] listed(others(root, n), u),
        others(root, n).no_duplicates(),
    decreases n,
{
    if n > 0 {
        lemma_others(root, (n - 1) as nat);
        let before = others(root, (n - 1) as nat);
        let now = others(root, n);
        assert forall|u: int| 0 <= u < n && u != root implies #[trigger] listed(now, u) by {
            if u < n - 1 {
                assert(listed(before, u));
                let i = choose|i: int| 0 <= i < before.len() && #[trigger] before[i] == u;
                assert(now[i] == u);
            } else {
                assert(now[before.len() as int] == u);
            }
        }
    }
}

proof fn lemma_root_first(root: u32, n: nat)
    requires
        n <= u32::MAX,
        root < n,
    ensures
        lists_all(root_first(root, n), n as int),
{
    lemma_others(root, n);
    let starts = root_first(root, n);
    let rest = others(root, n);
    assert(forall|i: int| 0 <= i < rest.len() ==> starts[i + 1] == #[trigger] rest[i]);
    assert forall|i: int| 0 <= i < starts.len() implies (#[trigger] starts[i]) < n by {
        if i > 0 {
            assert(starts[i] == rest[i - 1]);
        }
    }
    assert forall|u: int| 0 <= u < n implies #[trigger] listed(starts, u) by {
        if u == root {
            assert(starts[0] == u);
        } else {
            assert(listed(rest, u));
            let i = choose|i: int| 0 <= i < rest.len() && #[trigger] rest[i] == u;
            assert(starts[i + 1] == u);
        }
    }
    assert(starts.no_duplicates()) by {
        assert forall|i: int, j: int| 0 <= i < starts.len() && 0 <= j < starts.len() && i
            != j implies starts[i] != starts[j] by {
            if i > 0 {
                assert(starts[i] == rest[i - 1]);
            }
            if j > 0 {
                assert(starts[j] == rest[j - 1]);
            }
        }
    }
    lemma_full_list(starts, n as int);
}

/// The component graph of `edges`.
fn condense(edges: &Vec<(u32, u32)>, comp: &Vec<u32>, count: usize) -> (r: Vec<Vec<u32>>)
    requires
        count <= u32::MAX,
        forall|e: int|
            0 <= e < edges@.len() ==> (#[trigger] edges@[e]).0 < comp@.len() && edges@[e].1
                < comp@.len(),
        forall|u: int| 0 <= u < comp@.len() ==> (#[trigger] comp@[u]) < count,
    ensures
        adjacency(r@) == condensation(edges@, comp@, count as nat),
        r@.len() == count,
{
    let mut cross: Vec<(u32, u32)> = Vec::new();
    let mut index: usize = 0;
    while index < edges.len()
        invariant
            index <= edges@.len(),
            forall|e: int|
                0 <= e < edges@.len() ==> (#[trigger] edges@[e]).0 < comp@.len() && edges@[e].1
                    < comp@.len(),
            forall|u: int| 0 <= u < comp@.len() ==> (#[trigger] comp@[u]) < count,
            cross@ == cross_edges(edges@, comp@, index as int),
            forall|e: int| 0 <= e < cross@.len() ==> (#[trigger] cross@[e]).0 < count,
        decreases edges@.len() - index,
    {
        let (requester, provider) = edges[index];
        assert(edges@[index as int].0 < comp@.len());
        let from: u32 = comp[requester as usize];
        let to: u32 = comp[provider as usize];
        assert(from == comp@[requester as int] && from < count);
        if from != to {
            cross.push((from, to));
        }
        index = index + 1;
    }
    let lists = successor_lists(&cross, count);
    let mut result: Vec<Vec<u32>> = Vec::new();
    let mut c: usize = 0;
    while c < count
        invariant
            c <= count,
            lists@.len() == count,
            forall|u: int|
                0 <= u < count ==> (#[trigger] lists@[u])@ == sorted(
                    targets(cross@, u, cross@.len() as int),
                ),
            result@.len() == c,
            forall|u: int|
                0 <= u < c ==> (#[trigger] result@[u])@ == distinct(
                    sorted(targets(cross@, u, cross@.len() as int)),
                ),
        decreases count - c,
    {
        assert(lists@[c as int]@ == sorted(targets(cross@, c as int, cross@.len() as int)));
        result.push(dedup(&lists[c]));
        c = c + 1;
    }
    assert(adjacency(result@) =~= condensation(edges@, comp@, count as nat));
    result
}

/// The nodes of component `c` in ascending order.
fn component_members(comp: &Vec<u32>, c: u32) -> (r: Vec<u32>)
    requires
        comp@.len() <= UNASSIGNED,
    ensures
        r@ == members(comp@, c, comp@.len()),
{
    let mut found: Vec<u32> = Vec::new();
    let mut node: usize = 0;
    while node < comp.len()
        invariant
            node <= comp@.len(),
            comp@.len() <= UNASSIGNED,
            found@ == members(comp@, c, node as nat),
        decreases comp@.len() - node,
    {
        if comp[node] == c {
            found.push(node as u32);
        }
        node = node + 1;
    }
    found
}

/// The dependency-first order of the graph with the nodes below `n` and `edges`.
pub fn dependency_groups(n: usize, edges: &Vec<(u32, u32)>) -> (r: Vec<Vec<u32>>)
    requires
        n <= UNASSIGNED,
        forall|e: int| 0 <= e < edges@.len() ==> (#[trigger] edges@[e]).0 < n && edges@[e].1 < n,
    ensures
        adjacency(r@) == dependency_groups_spec(edges@, n as nat),
        is_dependency_order(edge_graph(edges@, n as nat), adjacency(r@)),
{
    let mut groups: Vec<Vec<u32>> = Vec::new();
    if n == 0 {
        assert(adjacency(groups@) =~= dependency_groups_spec(edges@, 0));
        return groups;
    }
    let ghost graph = edge_graph(edges@, n as nat);
    let adj = successor_lists(edges, n);
    let back = turned(edges);
    assert forall|e: int| 0 <= e < back@.len() implies (#[trigger] back@[e]).0 < n && back@[e].1
        < n by {
        assert(edges@[e].1 < n);
    }
    let adj_t = successor_lists(&back, n);
    proof {
        assert(adjacency(adj@) =~= graph);
        let graph_t = edge_graph(back@, n as nat);
        assert(adjacency(adj_t@) =~= graph_t);
        edge_graph_has_the_edges(edges@, n as nat, 0, 0);
        edge_graph_has_the_edges(back@, n as nat, 0, 0);
        assert forall|u: int, v: int| #[trigger] edge(graph, u, v) <==> #[trigger] edge(
            graph_t,
            v,
            u,
        ) by {
            edge_graph_has_the_edges(edges@, n as nat, u, v);
            edge_graph_has_the_edges(back@, n as nat, v, u);
            if edge(graph, u, v) {
                let e = choose|e: int|
                    0 <= e < edges@.len() && (#[trigger] edges@[e]).0 == u && edges@[e].1 == v;
                assert(back@[e].0 == v && back@[e].1 == u);
            }
            if edge(graph_t, v, u) {
                let e = choose|e: int|
                    0 <= e < back@.len() && (#[trigger] back@[e]).0 == v && back@[e].1 == u;
                assert(edges@[e].0 == u && edges@[e].1 == v);
            }
        }
    }
    let (count, comp) = compute_sccs(&adj, &adj_t);
    assert(comp@ =~= components(graph));
    assert(comp@[0] < count);
    let cond = condense(edges, &comp, count);
    proof {
        lemma_condensation(edges@, comp@, count as nat, n as nat, 0, 0);
    }
    let order = dfs_post_order(&cond, comp[0]);
    let mut index: usize = 0;
    while index < order.len()
        invariant
            index <= order@.len(),
            comp@.len() == n,
            n <= UNASSIGNED,
            groups@.len() == index,
            forall|g: int|
                0 <= g < index ==> (#[trigger] groups@[g])@ == members(comp@, order@[g], n as nat),
        decreases order@.len() - index,
    {
        groups.push(component_members(&comp, order[index]));
        index = index + 1;
    }
    proof {
        assert(adjacency(groups@) =~= dependency_groups_spec(edges@, n as nat));
        lemma_groups_in_order(
            edges@,
            n as nat,
            comp@,
            count as nat,
            order@,
            adjacency(groups@),
        );
    }
    groups
}

} // verus!
