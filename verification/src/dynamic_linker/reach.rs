//! Reachability in a finite directed graph and depth-first finish order.

use vstd::prelude::*;

verus! {

/// The successors of every node.
pub type Adjacency = Seq<Seq<u32>>;

/// Whether every successor is a node.
pub open spec fn closed_graph(adj: Adjacency) -> bool {
    forall|u: int, k: int|
        0 <= u < adj.len() && 0 <= k < adj[u].len() ==> (#[trigger] adj[u][k]) < adj.len()
}

/// Whether there is an edge from `u` to `v`.
pub open spec fn edge(adj: Adjacency, u: int, v: int) -> bool {
    0 <= u < adj.len() && exists|k: int| 0 <= k < adj[u].len() && #[trigger] adj[u][k] == v
}

/// Whether `v` can be reached from `u` in `steps` steps.
pub open spec fn reach_in(adj: Adjacency, u: int, v: int, steps: nat) -> bool
    decreases steps,
{
    if steps == 0 {
        u == v
    } else {
        exists|w: int| #[trigger] edge(adj, u, w) && reach_in(adj, w, v, (steps - 1) as nat)
    }
}

/// Whether `v` can be reached from `u`.
pub open spec fn reach(adj: Adjacency, u: int, v: int) -> bool {
    exists|steps: nat| #[trigger] reach_in(adj, u, v, steps)
}

/// Whether `u` and `v` can be reached from each other.
pub open spec fn mutual(adj: Adjacency, u: int, v: int) -> bool {
    reach(adj, u, v) && reach(adj, v, u)
}

pub proof fn lemma_reach_refl(adj: Adjacency, u: int)
    ensures
        reach(adj, u, u),
{
    assert(reach_in(adj, u, u, 0));
}

pub proof fn lemma_reach_edge(adj: Adjacency, u: int, v: int)
    requires
        edge(adj, u, v),
    ensures
        reach(adj, u, v),
{
    assert(reach_in(adj, v, v, 0));
    assert(reach_in(adj, u, v, 1));
}

proof fn lemma_reach_in_trans(adj: Adjacency, u: int, v: int, w: int, a: nat, b: nat)
    requires
        reach_in(adj, u, v, a),
        reach_in(adj, v, w, b),
    ensures
        reach_in(adj, u, w, a + b),
    decreases a,
{
    if a > 0 {
        let x = choose|x: int| #[trigger] edge(adj, u, x) && reach_in(adj, x, v, (a - 1) as nat);
        lemma_reach_in_trans(adj, x, v, w, (a - 1) as nat, b);
        assert((a - 1) as nat + b == (a + b - 1) as nat);
        assert(edge(adj, u, x));
    }
}

pub proof fn lemma_reach_trans(adj: Adjacency, u: int, v: int, w: int)
    requires
        reach(adj, u, v),
        reach(adj, v, w),
    ensures
        reach(adj, u, w),
{
    let a = choose|steps: nat| #[trigger] reach_in(adj, u, v, steps);
    let b = choose|steps: nat| #[trigger] reach_in(adj, v, w, steps);
    lemma_reach_in_trans(adj, u, v, w, a, b);
}

/// Being reachable from each other is an equivalence.
pub proof fn mutual_is_an_equivalence(adj: Adjacency, u: int, v: int, w: int)
    ensures
        mutual(adj, u, u),
        mutual(adj, u, v) ==> mutual(adj, v, u),
        mutual(adj, u, v) && mutual(adj, v, w) ==> mutual(adj, u, w),
{
    lemma_reach_refl(adj, u);
    if mutual(adj, u, v) && mutual(adj, v, w) {
        lemma_reach_trans(adj, u, v, w);
        lemma_reach_trans(adj, w, v, u);
    }
}

proof fn lemma_reach_in_is_node(adj: Adjacency, u: int, v: int, steps: nat)
    requires
        closed_graph(adj),
        0 <= u < adj.len(),
        reach_in(adj, u, v, steps),
    ensures
        0 <= v < adj.len(),
    decreases steps,
{
    if steps > 0 {
        let w = choose|w: int| #[trigger] edge(adj, u, w) && reach_in(adj, w, v, (steps - 1) as nat);
        lemma_reach_in_is_node(adj, w, v, (steps - 1) as nat);
    }
}

/// Whether `order` lists every node below `n` exactly once.
pub open spec fn lists_all(order: Seq<u32>, n: int) -> bool {
    &&& order.len() == n
    &&& order.no_duplicates()
    &&& forall|i: int| 0 <= i < order.len() ==> (#[trigger] order[i]) < n
    &&& forall|u: int| 0 <= u < n ==> #[trigger] listed(order, u)
}

pub open spec fn listed(order: Seq<u32>, u: int) -> bool {
    exists|i: int| 0 <= i < order.len() && #[trigger] order[i] == u
}

/// What depth-first search guarantees of a finish order: everything that the
/// `i`-th finished node reaches is finished by then, unless that node lies on a
/// cycle with one that finishes later.
pub open spec fn finish_order(adj: Adjacency, order: Seq<u32>) -> bool {
    forall|i: int, v: int|
        0 <= i < order.len() && #[trigger] reach(adj, #[trigger] order[i] as int, v) ==> {
            ||| exists|j: int| 0 <= j <= i && #[trigger] order[j] == v
            ||| exists|j: int|
                i < j < order.len() && #[trigger] mutual(adj, order[i] as int, order[j] as int)
        }
}

/// Whether node `u` lies on the search stack.
pub open spec fn on_stack(stack: Seq<(u32, usize)>, u: int) -> bool {
    exists|k: int| 0 <= k < stack.len() && (#[trigger] stack[k]).0 == u
}

/// The search stack is a path: each node on it has an edge to the next.
pub open spec fn stack_is_path(adj: Adjacency, stack: Seq<(u32, usize)>) -> bool {
    forall|k: int|
        0 <= k < stack.len() - 1 ==> edge(adj, (#[trigger] stack[k]).0 as int, stack[k + 1].0 as int)
}

/// Every successor that a stack entry has already passed was visited, and every
/// finished node has visited successors only.
pub open spec fn progress(
    adj: Adjacency,
    visited: Seq<bool>,
    stack: Seq<(u32, usize)>,
    finish: Seq<u32>,
) -> bool {
    &&& forall|k: int|
        0 <= k < stack.len() ==> (#[trigger] stack[k]).1 <= adj[stack[k].0 as int].len()
    &&& forall|k: int, c: int|
        0 <= k < stack.len() && 0 <= c < (#[trigger] stack[k]).1 ==> visited[(
        #[trigger] adj[stack[k].0 as int][c]) as int]
    &&& forall|i: int, c: int|
        0 <= i < finish.len() && 0 <= c < adj[finish[i] as int].len() ==> visited[(
        #[trigger] adj[(#[trigger] finish[i]) as int][c]) as int]
}

/// The part of `finish_order` that is known while a search runs: a node that
/// finishes later may still be on the stack.
pub open spec fn finish_so_far(adj: Adjacency, stack: Seq<(u32, usize)>, finish: Seq<u32>) -> bool {
    forall|i: int, v: int|
        0 <= i < finish.len() && #[trigger] reach(adj, #[trigger] finish[i] as int, v) ==> {
            ||| exists|j: int| 0 <= j <= i && #[trigger] finish[j] == v
            ||| exists|j: int|
                i < j < finish.len() && #[trigger] mutual(adj, finish[i] as int, finish[j] as int)
            ||| exists|k: int|
                0 <= k < stack.len() && #[trigger] mutual(adj, finish[i] as int, stack[k].0 as int)
        }
}

/// The visited nodes are exactly those on the stack and the finished ones, each once.
pub open spec fn accounted(
    n: int,
    visited: Seq<bool>,
    stack: Seq<(u32, usize)>,
    finish: Seq<u32>,
) -> bool {
    &&& visited.len() == n
    &&& finish.no_duplicates()
    &&& forall|a: int, b: int|
        0 <= a < b < stack.len() ==> (#[trigger] stack[a]).0 != (#[trigger] stack[b]).0
    &&& forall|k: int| 0 <= k < stack.len() ==> (#[trigger] stack[k]).0 < n
    &&& forall|i: int| 0 <= i < finish.len() ==> (#[trigger] finish[i]) < n
    &&& forall|i: int, k: int|
        0 <= i < finish.len() && 0 <= k < stack.len() ==> (#[trigger] finish[i]) != (
        #[trigger] stack[k]).0
    &&& forall|u: int|
        0 <= u < n ==> (#[trigger] visited[u] <==> (listed(finish, u) || on_stack(stack, u)))
}

/// How many entries are false.
pub open spec fn falses(marks: Seq<bool>) -> nat
    decreases marks.len(),
{
    if marks.len() == 0 {
        0
    } else {
        falses(marks.drop_last()) + if marks.last() {
            0nat
        } else {
            1nat
        }
    }
}

pub proof fn lemma_falses_update(marks: Seq<bool>, i: int)
    requires
        0 <= i < marks.len(),
        !marks[i],
    ensures
        falses(marks.update(i, true)) + 1 == falses(marks),
    decreases marks.len(),
{
    let updated = marks.update(i, true);
    if i == marks.len() - 1 {
        assert(updated.drop_last() =~= marks.drop_last());
    } else {
        lemma_falses_update(marks.drop_last(), i);
        assert(updated.drop_last() =~= marks.drop_last().update(i, true));
    }
}

/// Along the stack every node reaches every later one.
proof fn lemma_stack_reaches(adj: Adjacency, stack: Seq<(u32, usize)>, a: int, b: int)
    requires
        stack_is_path(adj, stack),
        0 <= a <= b < stack.len(),
    ensures
        reach(adj, stack[a].0 as int, stack[b].0 as int),
    decreases b - a,
{
    if a == b {
        lemma_reach_refl(adj, stack[a].0 as int);
    } else {
        lemma_stack_reaches(adj, stack, a, b - 1);
        let x = stack[b - 1];
        assert(edge(adj, x.0 as int, stack[b - 1 + 1].0 as int));
        lemma_reach_edge(adj, x.0 as int, stack[b].0 as int);
        lemma_reach_trans(adj, stack[a].0 as int, x.0 as int, stack[b].0 as int);
    }
}

/// Whatever a finished node reaches is finished too, unless it reaches a node on
/// the stack first.
proof fn lemma_escape(
    adj: Adjacency,
    visited: Seq<bool>,
    stack: Seq<(u32, usize)>,
    finish: Seq<u32>,
    u: int,
    v: int,
    steps: nat,
)
    requires
        closed_graph(adj),
        accounted(adj.len() as int, visited, stack, finish),
        progress(adj, visited, stack, finish),
        listed(finish, u),
        reach_in(adj, u, v, steps),
    ensures
        listed(finish, v) || exists|k: int|
            0 <= k < stack.len() && #[trigger] reach(adj, u, stack[k].0 as int),
    decreases steps,
{
    if steps > 0 {
        let w = choose|w: int| #[trigger] edge(adj, u, w) && reach_in(adj, w, v, (steps - 1) as nat);
        let i = choose|i: int| 0 <= i < finish.len() && #[trigger] finish[i] == u;
        let c = choose|c: int| 0 <= c < adj[u].len() && #[trigger] adj[u][c] == w;
        assert(visited[adj[finish[i] as int][c] as int]);
        assert(visited[w]);
        lemma_reach_edge(adj, u, w);
        if on_stack(stack, w) {
            let k = choose|k: int| 0 <= k < stack.len() && (#[trigger] stack[k]).0 == w;
            assert(reach(adj, u, stack[k].0 as int));
        } else {
            lemma_escape(adj, visited, stack, finish, w, v, (steps - 1) as nat);
            if !listed(finish, v) {
                let k = choose|k: int|
                    0 <= k < stack.len() && #[trigger] reach(adj, w, stack[k].0 as int);
                lemma_reach_trans(adj, u, w, stack[k].0 as int);
                assert(reach(adj, u, stack[k].0 as int));
            }
        }
    }
}

/// Finishing the top of the stack keeps what is known of the finish order.
pub proof fn lemma_finish_top(
    adj: Adjacency,
    visited: Seq<bool>,
    stack: Seq<(u32, usize)>,
    finish: Seq<u32>,
)
    requires
        closed_graph(adj),
        stack.len() > 0,
        accounted(adj.len() as int, visited, stack, finish),
        progress(adj, visited, stack, finish),
        stack_is_path(adj, stack),
        finish_so_far(adj, stack, finish),
        stack.last().1 >= adj[stack.last().0 as int].len(),
    ensures
        accounted(adj.len() as int, visited, stack.drop_last(), finish.push(stack.last().0)),
        progress(adj, visited, stack.drop_last(), finish.push(stack.last().0)),
        stack_is_path(adj, stack.drop_last()),
        finish_so_far(adj, stack.drop_last(), finish.push(stack.last().0)),
{
    let n = adj.len() as int;
    let top = stack.last().0;
    let rest = stack.drop_last();
    let done = finish.push(top);
    assert(forall|k: int| 0 <= k < rest.len() ==> rest[k] == stack[k]);
    assert(stack[stack.len() - 1] == stack.last());
    assert forall|u: int| 0 <= u < n implies (#[trigger] visited[u] <==> (listed(done, u)
        || on_stack(rest, u))) by {
        if visited[u] {
            if listed(finish, u) {
                let i = choose|i: int| 0 <= i < finish.len() && #[trigger] finish[i] == u;
                assert(done[i] == u);
            } else {
                let k = choose|k: int| 0 <= k < stack.len() && (#[trigger] stack[k]).0 == u;
                if k == stack.len() - 1 {
                    assert(done[finish.len() as int] == u);
                } else {
                    assert(rest[k].0 == u);
                }
            }
        }
        if listed(done, u) {
            let i = choose|i: int| 0 <= i < done.len() && #[trigger] done[i] == u;
            if i < finish.len() {
                assert(finish[i] == u);
            } else {
                assert(stack[stack.len() - 1].0 == u);
            }
        }
        if on_stack(rest, u) {
            let k = choose|k: int| 0 <= k < rest.len() && (#[trigger] rest[k]).0 == u;
            assert(stack[k].0 == u);
        }
    }
    assert(done.no_duplicates()) by {
        assert forall|i: int, j: int| 0 <= i < done.len() && 0 <= j < done.len() && i
            != j implies done[i] != done[j] by {
            if i == finish.len() {
                assert(finish[j] != stack[stack.len() - 1].0);
            } else if j == finish.len() {
                assert(finish[i] != stack[stack.len() - 1].0);
            }
        }
    }
    assert(accounted(n, visited, rest, done)) by {
        assert forall|i: int, k: int| 0 <= i < done.len() && 0 <= k < rest.len() implies (
        #[trigger] done[i]) != (#[trigger] rest[k]).0 by {
            if i < finish.len() {
                assert(finish[i] != stack[k].0);
            } else {
                assert(stack[k].0 != stack[stack.len() - 1].0);
            }
        }
    }
    assert forall|i: int, c: int|
        0 <= i < done.len() && 0 <= c < adj[done[i] as int].len() implies visited[(
    #[trigger] adj[(#[trigger] done[i]) as int][c]) as int] by {
        if i < finish.len() {
            assert(visited[adj[finish[i] as int][c] as int]);
        } else {
            assert(c < stack[stack.len() - 1].1);
            assert(visited[adj[stack[stack.len() - 1].0 as int][c] as int]);
        }
    }
    assert(stack_is_path(adj, rest)) by {
        assert forall|k: int| 0 <= k < rest.len() - 1 implies edge(
            adj,
            (#[trigger] rest[k]).0 as int,
            rest[k + 1].0 as int,
        ) by {
            assert(edge(adj, stack[k].0 as int, stack[k + 1].0 as int));
        }
    }
    assert(progress(adj, visited, rest, done));
    assert forall|i: int, v: int|
        0 <= i < done.len() && #[trigger] reach(adj, #[trigger] done[i] as int, v) implies {
        ||| exists|j: int| 0 <= j <= i && #[trigger] done[j] == v
        ||| exists|j: int| i < j < done.len() && #[trigger] mutual(adj, done[i] as int, done[j] as int)
        ||| exists|k: int| 0 <= k < rest.len() && #[trigger] mutual(adj, done[i] as int, rest[k].0 as int)
    } by {
        if i < finish.len() {
            assert(reach(adj, finish[i] as int, v));
            if exists|j: int| 0 <= j <= i && #[trigger] finish[j] == v {
                let j = choose|j: int| 0 <= j <= i && #[trigger] finish[j] == v;
                assert(done[j] == v);
            } else if exists|j: int|
                i < j < finish.len() && #[trigger] mutual(adj, finish[i] as int, finish[j] as int) {
                let j = choose|j: int|
                    i < j < finish.len() && #[trigger] mutual(
                        adj,
                        finish[i] as int,
                        finish[j] as int,
                    );
                assert(mutual(adj, done[i] as int, done[j] as int));
            } else {
                let k = choose|k: int|
                    0 <= k < stack.len() && #[trigger] mutual(
                        adj,
                        finish[i] as int,
                        stack[k].0 as int,
                    );
                if k == stack.len() - 1 {
                    assert(mutual(adj, done[i] as int, done[finish.len() as int] as int));
                } else {
                    assert(mutual(adj, done[i] as int, rest[k].0 as int));
                }
            }
        } else {
            assert(done[finish.len() as int] == top);
            assert(listed(done, top as int));
            let steps = choose|steps: nat| #[trigger] reach_in(adj, top as int, v, steps);
            lemma_escape(adj, visited, rest, done, top as int, v, steps);
            if listed(done, v) {
                let j = choose|j: int| 0 <= j < done.len() && #[trigger] done[j] == v;
                assert(0 <= j <= i && done[j] == v);
            } else {
                let k = choose|k: int|
                    0 <= k < rest.len() && #[trigger] reach(adj, top as int, rest[k].0 as int);
                lemma_stack_reaches(adj, stack, k, stack.len() - 1);
                assert(mutual(adj, done[i] as int, rest[k].0 as int));
            }
        }
    }
}

/// Visiting an unvisited successor of the top keeps what is known.
pub proof fn lemma_push_child(
    adj: Adjacency,
    visited: Seq<bool>,
    stack: Seq<(u32, usize)>,
    finish: Seq<u32>,
    child: u32,
)
    requires
        closed_graph(adj),
        accounted(adj.len() as int, visited, stack, finish),
        progress(adj, visited, stack, finish),
        stack_is_path(adj, stack),
        finish_so_far(adj, stack, finish),
        child < adj.len(),
        !visited[child as int],
        stack.len() > 0 ==> edge(adj, stack.last().0 as int, child as int),
    ensures
        accounted(
            adj.len() as int,
            visited.update(child as int, true),
            stack.push((child, 0)),
            finish,
        ),
        progress(adj, visited.update(child as int, true), stack.push((child, 0)), finish),
        stack_is_path(adj, stack.push((child, 0))),
        finish_so_far(adj, stack.push((child, 0)), finish),
{
    let n = adj.len() as int;
    let grown = stack.push((child, 0));
    let seen = visited.update(child as int, true);
    assert(forall|k: int| 0 <= k < stack.len() ==> grown[k] == stack[k]);
    assert(grown[stack.len() as int] == (child, 0usize));
    assert(!listed(finish, child as int) && !on_stack(stack, child as int));
    assert forall|u: int| 0 <= u < n implies (#[trigger] seen[u] <==> (listed(finish, u)
        || on_stack(grown, u))) by {
        if on_stack(grown, u) {
            let k = choose|k: int| 0 <= k < grown.len() && (#[trigger] grown[k]).0 == u;
            if k < stack.len() {
                assert(stack[k].0 == u);
                assert(visited[u]);
            }
        }
        if u == child {
            assert(grown[stack.len() as int].0 == u);
        } else if seen[u] {
            assert(visited[u]);
            if on_stack(stack, u) {
                let k = choose|k: int| 0 <= k < stack.len() && (#[trigger] stack[k]).0 == u;
                assert(grown[k].0 == u);
            }
        } else {
            assert(!visited[u]);
        }
    }
    assert forall|i: int, k: int| 0 <= i < finish.len() && 0 <= k < grown.len() implies (
    #[trigger] finish[i]) != (#[trigger] grown[k]).0 by {
        if k < stack.len() {
            assert(finish[i] != stack[k].0);
        } else {
            assert(listed(finish, finish[i] as int));
        }
    }
    assert forall|a: int, b: int| 0 <= a < b < grown.len() implies (#[trigger] grown[a]).0 != (
    #[trigger] grown[b]).0 by {
        if b < stack.len() {
            assert(stack[a].0 != stack[b].0);
        } else {
            assert(on_stack(stack, stack[a].0 as int));
        }
    }
    assert forall|k: int, c: int|
        0 <= k < grown.len() && 0 <= c < (#[trigger] grown[k]).1 implies seen[(
    #[trigger] adj[grown[k].0 as int][c]) as int] by {
        if k < stack.len() {
            assert(visited[adj[stack[k].0 as int][c] as int]);
        }
    }
    assert forall|i: int, c: int|
        0 <= i < finish.len() && 0 <= c < adj[finish[i] as int].len() implies seen[(
    #[trigger] adj[(#[trigger] finish[i]) as int][c]) as int] by {
        assert(visited[adj[finish[i] as int][c] as int]);
    }
    assert forall|k: int| 0 <= k < grown.len() - 1 implies edge(
        adj,
        (#[trigger] grown[k]).0 as int,
        grown[k + 1].0 as int,
    ) by {
        if k < stack.len() - 1 {
            assert(edge(adj, stack[k].0 as int, stack[k + 1].0 as int));
        } else {
            assert(stack[k] == stack.last());
        }
    }
    assert forall|i: int, v: int|
        0 <= i < finish.len() && #[trigger] reach(adj, #[trigger] finish[i] as int, v) implies {
        ||| exists|j: int| 0 <= j <= i && #[trigger] finish[j] == v
        ||| exists|j: int|
            i < j < finish.len() && #[trigger] mutual(adj, finish[i] as int, finish[j] as int)
        ||| exists|k: int|
            0 <= k < grown.len() && #[trigger] mutual(adj, finish[i] as int, grown[k].0 as int)
    } by {
        if exists|k: int|
            0 <= k < stack.len() && #[trigger] mutual(adj, finish[i] as int, stack[k].0 as int) {
            let k = choose|k: int|
                0 <= k < stack.len() && #[trigger] mutual(adj, finish[i] as int, stack[k].0 as int);
            assert(mutual(adj, finish[i] as int, grown[k].0 as int));
        }
    }
}

/// Passing an already visited successor of a stack entry keeps what is known.
pub proof fn lemma_advance(
    adj: Adjacency,
    visited: Seq<bool>,
    stack: Seq<(u32, usize)>,
    finish: Seq<u32>,
    at: int,
)
    requires
        closed_graph(adj),
        accounted(adj.len() as int, visited, stack, finish),
        progress(adj, visited, stack, finish),
        stack_is_path(adj, stack),
        finish_so_far(adj, stack, finish),
        0 <= at < stack.len(),
        stack[at].1 < adj[stack[at].0 as int].len(),
        visited[adj[stack[at].0 as int][stack[at].1 as int] as int],
    ensures
        ({
            let moved = stack.update(at, (stack[at].0, (stack[at].1 + 1) as usize));
            &&& accounted(adj.len() as int, visited, moved, finish)
            &&& progress(adj, visited, moved, finish)
            &&& stack_is_path(adj, moved)
            &&& finish_so_far(adj, moved, finish)
        }),
{
    let n = adj.len() as int;
    let moved = stack.update(at, (stack[at].0, (stack[at].1 + 1) as usize));
    assert(forall|k: int| 0 <= k < stack.len() ==> (#[trigger] moved[k]).0 == stack[k].0);
    assert forall|u: int| 0 <= u < n implies (#[trigger] visited[u] <==> (listed(finish, u)
        || on_stack(moved, u))) by {
        if on_stack(moved, u) {
            let k = choose|k: int| 0 <= k < moved.len() && (#[trigger] moved[k]).0 == u;
            assert(stack[k].0 == u);
        }
        if on_stack(stack, u) {
            let k = choose|k: int| 0 <= k < stack.len() && (#[trigger] stack[k]).0 == u;
            assert(moved[k].0 == u);
        }
    }
    assert forall|i: int, k: int| 0 <= i < finish.len() && 0 <= k < moved.len() implies (
    #[trigger] finish[i]) != (#[trigger] moved[k]).0 by {
        assert(finish[i] != stack[k].0);
    }
    assert forall|a: int, b: int| 0 <= a < b < moved.len() implies (#[trigger] moved[a]).0 != (
    #[trigger] moved[b]).0 by {
        assert(stack[a].0 != stack[b].0);
    }
    assert forall|k: int, c: int|
        0 <= k < moved.len() && 0 <= c < (#[trigger] moved[k]).1 implies visited[(
    #[trigger] adj[moved[k].0 as int][c]) as int] by {
        if k != at || c < stack[at].1 {
            assert(c < stack[k].1);
            assert(visited[adj[stack[k].0 as int][c] as int]);
        }
    }
    assert forall|k: int| 0 <= k < moved.len() - 1 implies edge(
        adj,
        (#[trigger] moved[k]).0 as int,
        moved[k + 1].0 as int,
    ) by {
        assert(edge(adj, stack[k].0 as int, stack[k + 1].0 as int));
    }
    assert forall|i: int, v: int|
        0 <= i < finish.len() && #[trigger] reach(adj, #[trigger] finish[i] as int, v) implies {
        ||| exists|j: int| 0 <= j <= i && #[trigger] finish[j] == v
        ||| exists|j: int|
            i < j < finish.len() && #[trigger] mutual(adj, finish[i] as int, finish[j] as int)
        ||| exists|k: int|
            0 <= k < moved.len() && #[trigger] mutual(adj, finish[i] as int, moved[k].0 as int)
    } by {
        if exists|k: int|
            0 <= k < stack.len() && #[trigger] mutual(adj, finish[i] as int, stack[k].0 as int) {
            let k = choose|k: int|
                0 <= k < stack.len() && #[trigger] mutual(adj, finish[i] as int, stack[k].0 as int);
            assert(mutual(adj, finish[i] as int, moved[k].0 as int));
        }
    }
}

/// From every finished node some node on a cycle with it finishes last of all
/// those on a cycle with it.
pub proof fn lemma_latest(adj: Adjacency, order: Seq<u32>, i: int) -> (latest: int)
    requires
        0 <= i < order.len(),
    ensures
        i <= latest < order.len(),
        mutual(adj, order[i] as int, order[latest] as int),
        forall|j: int|
            latest < j < order.len() ==> !(#[trigger] mutual(
                adj,
                order[latest] as int,
                order[j] as int,
            )),
    decreases order.len() - i,
{
    mutual_is_an_equivalence(adj, order[i] as int, order[i] as int, order[i] as int);
    if exists|j: int| i < j < order.len() && #[trigger] mutual(adj, order[i] as int, order[j] as int) {
        let j = choose|j: int|
            i < j < order.len() && #[trigger] mutual(adj, order[i] as int, order[j] as int);
        let latest = lemma_latest(adj, order, j);
        mutual_is_an_equivalence(
            adj,
            order[i] as int,
            order[j] as int,
            order[latest] as int,
        );
        latest
    } else {
        i
    }
}

/// The last finished node among the unassigned ones reaches every unassigned
/// node that reaches it, provided the assigned nodes are whole cycles.
pub proof fn lemma_last_reaches_back(
    adj: Adjacency,
    order: Seq<u32>,
    assigned: Seq<bool>,
    k: int,
    t: int,
)
    requires
        lists_all(order, adj.len() as int),
        finish_order(adj, order),
        assigned.len() == adj.len(),
        forall|u: int, v: int|
            0 <= u < adj.len() && 0 <= v < adj.len() && assigned[u] && #[trigger] mutual(adj, u, v)
                ==> assigned[v],
        0 <= k < order.len(),
        forall|j: int| k < j < order.len() ==> assigned[(#[trigger] order[j]) as int],
        0 <= t < adj.len(),
        !assigned[t],
        reach(adj, t, order[k] as int),
    ensures
        reach(adj, order[k] as int, t),
{
    assert(listed(order, t));
    let i = choose|i: int| 0 <= i < order.len() && #[trigger] order[i] == t;
    let latest = lemma_latest(adj, order, i);
    let w = order[latest] as int;
    mutual_is_an_equivalence(adj, t, w, t);
    assert(!assigned[w]);
    assert(latest <= k);
    lemma_reach_trans(adj, w, t, order[k] as int);
    assert(reach(adj, order[latest] as int, order[k] as int));
    assert(exists|j: int| 0 <= j <= latest && #[trigger] order[j] == order[k]);
    let j = choose|j: int| 0 <= j <= latest && #[trigger] order[j] == order[k];
    assert(j == k);
}

/// Whether `adj_t` has exactly the edges of `adj`, turned round.
pub open spec fn transposed(adj: Adjacency, adj_t: Adjacency) -> bool {
    &&& adj_t.len() == adj.len()
    &&& closed_graph(adj_t)
    &&& forall|u: int, v: int| #[trigger] edge(adj, u, v) <==> #[trigger] edge(adj_t, v, u)
}

/// A set that holds a node and, with each member, all members' predecessors on
/// the same cycle holds the whole cycle.
pub proof fn lemma_backward_closed(
    adj: Adjacency,
    adj_t: Adjacency,
    inside: Seq<bool>,
    s: int,
    t: int,
    steps: nat,
)
    requires
        closed_graph(adj),
        transposed(adj, adj_t),
        inside.len() == adj.len(),
        0 <= s < adj.len(),
        inside[s],
        0 <= t < adj.len(),
        reach(adj, s, t),
        reach_in(adj, t, s, steps),
        forall|u: int, v: int|
            0 <= u < adj.len() && inside[u] && mutual(adj, s, u) && #[trigger] edge(adj_t, u, v)
                && mutual(adj, s, v) ==> inside[v],
    ensures
        inside[t],
    decreases steps,
{
    if steps > 0 {
        let w = choose|w: int| #[trigger] edge(adj, t, w) && reach_in(adj, w, s, (steps - 1) as nat);
        let ghost_k = choose|k: int| 0 <= k < adj[t].len() && #[trigger] adj[t][k] == w;
        assert(0 <= w < adj.len());
        lemma_reach_edge(adj, t, w);
        lemma_reach_trans(adj, s, t, w);
        assert(reach(adj, w, s));
        lemma_backward_closed(adj, adj_t, inside, s, w, (steps - 1) as nat);
        assert(edge(adj_t, w, t));
        assert(reach(adj, t, s));
    }
}

} // verus!
