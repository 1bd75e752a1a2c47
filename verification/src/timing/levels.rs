//! Ordering a graph so that every edge leads forward.

use vstd::prelude::*;

verus! {

/// How often a number stands in a list.
pub open spec fn times(s: Seq<usize>, v: usize) -> nat
    decreases s.len(),
{
    if s.len() == 0 {
        0
    } else {
        times(s.drop_last(), v) + if s.last() == v {
            1nat
        } else {
            0nat
        }
    }
}

/// A number stands in a list exactly where it is counted.
pub proof fn lemma_times(s: Seq<usize>, v: usize)
    ensures
        times(s, v) > 0 <==> s.contains(v),
        times(s, v) <= s.len(),
    decreases s.len(),
{
    if s.len() > 0 {
        lemma_times(s.drop_last(), v);
        if s.contains(v) {
            let i = choose|i: int| 0 <= i < s.len() && s[i] == v;
            if i < s.len() - 1 {
                assert(s.drop_last()[i] == v);
            }
        }
        if s.drop_last().contains(v) {
            let i = choose|i: int| 0 <= i < s.drop_last().len() && s.drop_last()[i] == v;
            assert(s[i] == v);
        }
        if s.last() == v {
            assert(s[s.len() - 1] == v);
        }
    }
}

/// The edges into `v` from those of the first `n` nodes that are not done.
pub open spec fn open_edges(edges: Seq<Seq<usize>>, done: Set<usize>, n: int, v: usize) -> nat
    decreases n,
{
    if n <= 0 {
        0
    } else {
        open_edges(edges, done, n - 1, v) + if done.contains((n - 1) as usize) {
            0nat
        } else {
            times(edges[n - 1], v)
        }
    }
}

/// Every edge leads to a node.
pub open spec fn edges_ok(edges: Seq<Seq<usize>>) -> bool {
    &&& edges.len() <= usize::MAX
    &&& forall|u: int, k: int|
        0 <= u < edges.len() && 0 <= k < edges[u].len() ==> #[trigger] edges[u][k] < edges.len()
}

/// There is an edge from `u` to `v`.
pub open spec fn leads_to(edges: Seq<Seq<usize>>, u: usize, v: usize) -> bool {
    u < edges.len() && edges[u as int].contains(v)
}

/// The node at a position of the list comes after every node with an edge to it.
pub open spec fn after_sources(edges: Seq<Seq<usize>>, order: Seq<usize>, i: int) -> bool {
    forall|u: usize| #[trigger] leads_to(edges, u, order[i]) ==> order.take(i).contains(u)
}

/// The list orders the graph: it names nodes, none twice, each after all nodes with an edge to
/// it, and every node that it leaves out has an edge from another that it leaves out.
pub open spec fn orders_graph(edges: Seq<Seq<usize>>, order: Seq<usize>) -> bool {
    &&& order.no_duplicates()
    &&& forall|i: int| 0 <= i < order.len() ==> #[trigger] order[i] < edges.len()
    &&& forall|i: int| 0 <= i < order.len() ==> #[trigger] after_sources(edges, order, i)
    &&& forall|v: usize|
        v < edges.len() && !#[trigger] order.contains(v) ==> exists|u: usize|
            #[trigger] leads_to(edges, u, v) && !order.contains(u)
}

proof fn lemma_open_done(edges: Seq<Seq<usize>>, done: Set<usize>, n: int, u: usize, v: usize)
    requires
        0 <= n <= edges.len() <= usize::MAX,
        u < edges.len(),
        !done.contains(u),
    ensures
        open_edges(edges, done, n, v) == open_edges(edges, done.insert(u), n, v) + (if u < n {
            times(edges[u as int], v)
        } else {
            0nat
        }),
    decreases n,
{
    if n > 0 {
        lemma_open_done(edges, done, n - 1, u, v);
        assert(((n - 1) as usize) as int == n - 1);
    }
}

proof fn lemma_open_zero(edges: Seq<Seq<usize>>, done: Set<usize>, n: int, v: usize)
    requires
        0 <= n <= edges.len() <= usize::MAX,
    ensures
        open_edges(edges, done, n, v) == 0 <==> forall|u: usize|
            u < n && #[trigger] leads_to(edges, u, v) ==> done.contains(u),
    decreases n,
{
    if n > 0 {
        lemma_open_zero(edges, done, n - 1, v);
        let last = (n - 1) as usize;
        lemma_times(edges[n - 1], v);
        if open_edges(edges, done, n, v) == 0 {
            assert forall|u: usize| u < n && #[trigger] leads_to(edges, u, v) implies done.contains(u) by {
                if u == last {
                } else {
                    assert(u < n - 1);
                }
            }
        } else if forall|u: usize| u < n && #[trigger] leads_to(edges, u, v) ==> done.contains(u) {
            assert(leads_to(edges, last, v) ==> done.contains(last));
            assert(open_edges(edges, done, n - 1, v) == 0) by {
                assert forall|u: usize| u < n - 1 && #[trigger] leads_to(edges, u, v) implies done.contains(
                    u,
                ) by {
                }
            }
        }
    }
}

/// The lists of a vector of vectors.
pub open spec fn rows(edges: Seq<Vec<usize>>) -> Seq<Seq<usize>> {
    Seq::new(edges.len(), |i: int| edges[i]@)
}

/// Edge `j` of the node `u` is the last open one into the node that it leads to.
pub open spec fn frees(edges: Seq<Seq<usize>>, done: Set<usize>, u: usize, j: int) -> bool {
    let v = edges[u as int][j];
    &&& times(edges[u as int].skip(j + 1), v) == 0
    &&& open_edges(edges, done, edges.len() as int, v) == 0
}

/// The nodes that the first `k` edges of the node `u` make ready, in the order of those edges.
pub open spec fn freed(edges: Seq<Seq<usize>>, done: Set<usize>, u: usize, k: int) -> Seq<usize>
    decreases k,
{
    if k <= 0 {
        Seq::empty()
    } else if frees(edges, done, u, k - 1) {
        freed(edges, done, u, k - 1).push(edges[u as int][k - 1])
    } else {
        freed(edges, done, u, k - 1)
    }
}

/// The first `n` nodes without those that an edge leads to.
pub open spec fn roots(edges: Seq<Seq<usize>>, n: int) -> Seq<usize>
    decreases n,
{
    if n <= 0 {
        Seq::empty()
    } else if open_edges(edges, Set::empty(), edges.len() as int, (n - 1) as usize) == 0 {
        roots(edges, n - 1).push((n - 1) as usize)
    } else {
        roots(edges, n - 1)
    }
}

/// The ready nodes, oldest first, once the nodes of `order` are done: a node that is done leaves
/// the line at one of its ends, and the nodes that it makes ready join at the back.
pub open spec fn ready_line(edges: Seq<Seq<usize>>, newest_first: bool, order: Seq<usize>) -> Seq<usize>
    decreases order.len(),
{
    if order.len() == 0 {
        roots(edges, edges.len() as int)
    } else {
        let u = order.last();
        let line = ready_line(edges, newest_first, order.drop_last());
        let left = if newest_first {
            line.drop_last()
        } else {
            line.skip(1)
        };
        left + freed(edges, order.to_set(), u, edges[u as int].len() as int)
    }
}

/// The node at a position is the one whose turn it was: the newest or the oldest ready one.
pub open spec fn had_turn(edges: Seq<Seq<usize>>, newest_first: bool, order: Seq<usize>, i: int) -> bool {
    let line = ready_line(edges, newest_first, order.take(i));
    &&& line.len() > 0
    &&& order[i] == if newest_first {
        line.last()
    } else {
        line[0]
    }
}

/// Each node comes when it is its turn, and at the end no node is ready.
pub open spec fn in_turn(edges: Seq<Seq<usize>>, newest_first: bool, order: Seq<usize>) -> bool {
    &&& forall|i: int| 0 <= i < order.len() ==> #[trigger] had_turn(edges, newest_first, order, i)
    &&& ready_line(edges, newest_first, order).len() == 0
}

/// The number of edges, counted up to node `n`.
pub open spec fn edge_total(edges: Seq<Seq<usize>>, n: int) -> nat
    decreases n,
{
    if n <= 0 {
        0
    } else {
        edge_total(edges, n - 1) + edges[n - 1].len()
    }
}

proof fn lemma_open_bound(edges: Seq<Seq<usize>>, done: Set<usize>, n: int, v: usize)
    ensures
        open_edges(edges, done, n, v) <= edge_total(edges, n),
    decreases n,
{
    if n > 0 {
        lemma_open_bound(edges, done, n - 1, v);
        lemma_times(edges[n - 1], v);
    }
}

/// The number of edges into each node.
fn count_edges(edges: &Vec<Vec<usize>>) -> (deg: Vec<u128>)
    requires
        edges_ok(rows(edges@)),
    ensures
        deg@.len() == edges@.len(),
        forall|v: usize|
            v < edges@.len() ==> #[trigger] deg@[v as int] == open_edges(
                rows(edges@),
                Set::empty(),
                edges@.len() as int,
                v,
            ),
{
    let ghost g = rows(edges@);
    let ghost none: Set<usize> = Set::empty();
    let n: usize = edges.len();
    proof {
        assert forall|u: int| 0 <= u < g.len() implies (#[trigger] g[u]).len() <= usize::MAX by {
            assert(g[u].len() == edges@[u].len());
        }
        lemma_total_bound(g, n as int);
    }
    let mut deg: Vec<u128> = Vec::new();
    for i in 0..n
        invariant
            deg@.len() == i,
            forall|v: int| 0 <= v < i ==> #[trigger] deg@[v] == 0,
    {
        deg.push(0);
    }
    for u in 0..n
        invariant
            n == edges@.len(),
            g == rows(edges@),
            none == Set::<usize>::empty(),
            edges_ok(g),
            edge_total(g, n as int) <= u128::MAX,
            deg@.len() == n,
            forall|v: usize| v < n ==> #[trigger] deg@[v as int] == open_edges(g, none, u as int, v),
    {
        proof {
            lemma_total_grows(g, u + 1, n as int);
        }
        let row = &edges[u];
        for k in 0..row.len()
            invariant
                n == edges@.len(),
                u < n,
                g == rows(edges@),
                g[u as int] == row@,
                none == Set::<usize>::empty(),
                edges_ok(g),
                edge_total(g, u + 1) <= u128::MAX,
                deg@.len() == n,
                forall|v: usize|
                    v < n ==> #[trigger] deg@[v as int] == open_edges(g, none, u as int, v) + times(
                        row@.take(k as int),
                        v,
                    ),
        {
            let v: usize = row[k];
            proof {
                assert(g[u as int][k as int] < g.len());
                lemma_open_bound(g, none, u as int, v);
                lemma_times(row@.take(k as int), v);
                assert(edge_total(g, u + 1) == edge_total(g, u as int) + row@.len());
                assert(row@.take(k + 1).drop_last() =~= row@.take(k as int));
            }
            deg[v] = deg[v] + 1;
        }
        assert(row@.take(row@.len() as int) =~= row@);
    }
    deg
}

proof fn lemma_total_bound(edges: Seq<Seq<usize>>, n: int)
    requires
        0 <= n <= edges.len() <= usize::MAX,
        forall|u: int| 0 <= u < edges.len() ==> (#[trigger] edges[u]).len() <= usize::MAX,
    ensures
        edge_total(edges, n) <= u128::MAX,
        edge_total(edges, n) <= n * usize::MAX,
    decreases n,
{
    if n > 0 {
        lemma_total_bound(edges, n - 1);
        assert((n - 1) * usize::MAX + usize::MAX == n * usize::MAX) by (nonlinear_arith);
    }
    assert(n * usize::MAX <= 0xffff_ffff_ffff_ffff * 0xffff_ffff_ffff_ffff) by (nonlinear_arith)
        requires
            0 <= n <= usize::MAX,
            usize::MAX <= 0xffff_ffff_ffff_ffff,
    ;
}

proof fn lemma_order_len(edges: Seq<Seq<usize>>, order: Seq<usize>)
    requires
        order.no_duplicates(),
        forall|i: int| 0 <= i < order.len() ==> #[trigger] order[i] < edges.len(),
    ensures
        order.len() <= edges.len(),
{
    let ints = order.map_values(|x: usize| x as int);
    assert(ints.no_duplicates()) by {
        assert forall|i: int, j: int| 0 <= i < ints.len() && 0 <= j < ints.len() && i != j implies ints[i]
            != ints[j] by {
            assert(order[i] != order[j]);
        }
    }
    ints.unique_seq_to_set();
    let range = vstd::set_lib::set_int_range(0, edges.len() as int);
    vstd::set_lib::lemma_int_range(0, edges.len() as int);
    assert(ints.to_set().subset_of(range)) by {
        assert forall|x: int| ints.to_set().contains(x) implies range.contains(x) by {
            let i = choose|i: int| 0 <= i < ints.len() && ints[i] == x;
            assert(order[i] < edges.len());
        }
    }
    vstd::set_lib::lemma_len_subset(ints.to_set(), range);
}

proof fn lemma_total_grows(edges: Seq<Seq<usize>>, a: int, b: int)
    requires
        a <= b,
    ensures
        edge_total(edges, a) <= edge_total(edges, b),
    decreases b - a,
{
    if a < b {
        lemma_total_grows(edges, a, b - 1);
    }
}

/// What a list holds after a push.
pub proof fn lemma_push(s: Seq<usize>, v: usize)
    ensures
        forall|x: usize| #[trigger] s.push(v).contains(x) <==> s.contains(x) || x == v,
        s.no_duplicates() && !s.contains(v) ==> s.push(v).no_duplicates(),
{
    let next = s.push(v);
    assert forall|x: usize| #[trigger] next.contains(x) <==> s.contains(x) || x == v by {
        if s.contains(x) {
            let i = choose|i: int| 0 <= i < s.len() && s[i] == x;
            assert(next[i] == x);
        }
        if x == v {
            assert(next[s.len() as int] == v);
        }
        if next.contains(x) {
            let i = choose|i: int| 0 <= i < next.len() && next[i] == x;
            if i < s.len() {
                assert(s[i] == x);
            }
        }
    }
}

/// What holds between two nodes of the walk: the nodes in `order` are done, those in `waiting`
/// have no edge left from a node that is not done, and `deg` counts the edges that are left.
spec fn walk_ok(edges: Seq<Seq<usize>>, deg: Seq<u128>, waiting: Seq<usize>, order: Seq<usize>) -> bool {
    let n = edges.len() as int;
    let done = order.to_set();
    &&& deg.len() == n
    &&& order.no_duplicates()
    &&& waiting.no_duplicates()
    &&& forall|i: int| 0 <= i < order.len() ==> #[trigger] order[i] < n
    &&& forall|i: int| 0 <= i < waiting.len() ==> #[trigger] waiting[i] < n
    &&& forall|i: int| 0 <= i < order.len() ==> #[trigger] after_sources(edges, order, i)
    &&& forall|v: usize| v < n ==> #[trigger] deg[v as int] == open_edges(edges, done, n, v)
    &&& forall|v: usize|
        v < n ==> (#[trigger] deg[v as int] == 0 <==> (waiting.contains(v) || order.contains(v)))
    &&& forall|v: usize| #[trigger] waiting.contains(v) ==> !order.contains(v)
}

/// What holds while the edges of the node `u`, which was just done, are taken off.
spec fn edges_off(
    edges: Seq<Seq<usize>>,
    deg: Seq<u128>,
    waiting: Seq<usize>,
    order: Seq<usize>,
    u: usize,
    k: int,
) -> bool {
    let n = edges.len() as int;
    let done = order.to_set();
    &&& deg.len() == n
    &&& u < n
    &&& order.no_duplicates()
    &&& waiting.no_duplicates()
    &&& forall|i: int| 0 <= i < waiting.len() ==> #[trigger] waiting[i] < n
    &&& forall|v: usize|
        v < n ==> #[trigger] deg[v as int] == open_edges(edges, done, n, v) + times(
            edges[u as int].skip(k),
            v,
        )
    &&& forall|v: usize|
        v < n ==> (#[trigger] deg[v as int] == 0 <==> (waiting.contains(v) || order.contains(v)))
    &&& forall|v: usize| #[trigger] waiting.contains(v) ==> !order.contains(v)
}

proof fn lemma_times_skip(s: Seq<usize>, k: int, v: usize)
    requires
        0 <= k < s.len(),
    ensures
        times(s.skip(k), v) == times(s.skip(k + 1), v) + (if s[k] == v {
            1nat
        } else {
            0nat
        }),
    decreases s.len() - k,
{
    let a = s.skip(k);
    let b = s.skip(k + 1);
    if k + 1 < s.len() {
        lemma_times_skip(s.drop_last(), k, v);
        assert(a.drop_last() =~= s.drop_last().skip(k));
        assert(b.drop_last() =~= s.drop_last().skip(k + 1));
        assert(a.last() == s.last() && b.last() == s.last());
    } else {
        assert(b.len() == 0);
        assert(a.drop_last().len() == 0);
        assert(a.last() == s[k]);
        assert(times(a.drop_last(), v) == 0);
    }
}

/// Takes the edges of a node that was just done off the counts; the nodes that have none left
/// join the waiting ones.
fn take_edges_off(
    edges: &Vec<Vec<usize>>,
    deg: &mut Vec<u128>,
    waiting: &mut Vec<usize>,
    head: usize,
    u: usize,
    Ghost(order): Ghost<Seq<usize>>,
)
    requires
        edges_ok(rows(edges@)),
        head <= old(waiting)@.len(),
        edges_off(rows(edges@), old(deg)@, old(waiting)@.skip(head as int), order, u, 0),
    ensures
        head <= final(waiting)@.len(),
        edges_off(
            rows(edges@),
            final(deg)@,
            final(waiting)@.skip(head as int),
            order,
            u,
            edges@[u as int]@.len() as int,
        ),
        final(waiting)@.skip(head as int) == old(waiting)@.skip(head as int) + freed(
            rows(edges@),
            order.to_set(),
            u,
            edges@[u as int]@.len() as int,
        ),
{
    let ghost g = rows(edges@);
    let ghost line = waiting@.skip(head as int);
    assert(line + Seq::<usize>::empty() =~= line);
    let row = &edges[u];
    for k in 0..row.len()
        invariant
            g == rows(edges@),
            edges_ok(g),
            u < edges@.len(),
            g[u as int] == row@,
            head <= waiting@.len(),
            edges_off(g, deg@, waiting@.skip(head as int), order, u, k as int),
            waiting@.skip(head as int) == line + freed(g, order.to_set(), u, k as int),
    {
        let v: usize = row[k];
        let ghost old_deg = deg@;
        let ghost old_waiting = waiting@.skip(head as int);
        proof {
            assert(g[u as int][k as int] < g.len());
            assert forall|x: usize| x < g.len() implies times(row@.skip(k as int), x) == times(
                row@.skip(k + 1),
                x,
            ) + (if v == x {
                1nat
            } else {
                0nat
            }) by {
                lemma_times_skip(row@, k as int, x);
            }
            assert(old_deg[v as int] > 0);
        }
        deg[v] = deg[v] - 1;
        if deg[v] == 0 {
            waiting.push(v);
            proof {
                let list = waiting@.skip(head as int);
                assert(list =~= old_waiting.push(v));
                assert(!old_waiting.contains(v) && !order.contains(v));
                lemma_push(old_waiting, v);
            }
        }
        proof {
            let ready = freed(g, order.to_set(), u, k as int);
            lemma_times_skip(row@, k as int, v);
            assert(frees(g, order.to_set(), u, k as int) == (deg@[v as int] == 0));
            assert((line + ready).push(v) =~= line + ready.push(v));
            assert(waiting@.skip(head as int) =~= line + freed(g, order.to_set(), u, k + 1));
            assert forall|x: usize| x < g.len() implies #[trigger] deg@[x as int] == open_edges(
                g,
                order.to_set(),
                g.len() as int,
                x,
            ) + times(g[u as int].skip(k + 1), x) by {
                assert(old_deg[x as int] == open_edges(g, order.to_set(), g.len() as int, x) + times(
                    g[u as int].skip(k as int),
                    x,
                ));
            }
            assert forall|x: usize| x < g.len() implies (#[trigger] deg@[x as int] == 0 <==> (waiting@.skip(
                head as int,
            ).contains(x) || order.contains(x))) by {
                assert(old_deg[x as int] == 0 <==> (old_waiting.contains(x) || order.contains(x)));
            }
        }
    }
}

proof fn lemma_take_node(
    edges: Seq<Seq<usize>>,
    deg: Seq<u128>,
    waiting: Seq<usize>,
    order: Seq<usize>,
    u: usize,
    left: Seq<usize>,
)
    requires
        edges_ok(edges),
        walk_ok(edges, deg, waiting, order),
        waiting.contains(u),
        left.no_duplicates(),
        forall|i: int| 0 <= i < left.len() ==> #[trigger] left[i] < edges.len(),
        forall|v: usize| #[trigger] left.contains(v) <==> waiting.contains(v) && v != u,
    ensures
        edges_off(edges, deg, left, order.push(u), u, 0),
        forall|i: int| 0 <= i < order.len() + 1 ==> #[trigger] after_sources(edges, order.push(u), i),
        order.push(u).no_duplicates(),
        forall|i: int| 0 <= i < order.push(u).len() ==> #[trigger] order.push(u)[i] < edges.len(),
{
    let n = edges.len() as int;
    let next = order.push(u);
    let done = order.to_set();
    let i = choose|i: int| 0 <= i < waiting.len() && waiting[i] == u;
    assert(u < n);
    assert(!order.contains(u));
    lemma_push(order, u);
    assert(next.to_set() =~= done.insert(u)) by {
        assert forall|x: usize| next.to_set().contains(x) <==> done.insert(u).contains(x) by {
            assert(next.contains(x) <==> order.contains(x) || x == u);
        }
    }
    assert(next.no_duplicates());
    assert(edges[u as int].skip(0) =~= edges[u as int]);
    assert forall|v: usize| v < n implies #[trigger] deg[v as int] == open_edges(edges, next.to_set(), n, v)
        + times(edges[u as int].skip(0), v) by {
        lemma_open_done(edges, done, n, u, v);
    }
    assert forall|k: int| 0 <= k < order.len() + 1 implies #[trigger] after_sources(edges, next, k) by {
        assert(next.take(k) =~= order.take(k));
        if k < order.len() {
            assert(after_sources(edges, order, k));
        } else {
            assert(deg[u as int] == 0);
            lemma_open_zero(edges, done, n, u);
            assert(order.take(k) =~= order);
            assert forall|w: usize| #[trigger] leads_to(edges, w, next[k]) implies next.take(k).contains(w) by {
                assert(done.contains(w));
            }
        }
    }
}

/// Orders the nodes of a graph so that every edge leads forward. Nodes on a cycle, and those
/// behind one, are left out. Of the nodes that are ready, the newest goes first where
/// `newest_first` asks for it, and else the oldest.
pub fn order_graph(edges: &Vec<Vec<usize>>, newest_first: bool) -> (order: Vec<usize>)
    requires
        edges_ok(rows(edges@)),
    ensures
        orders_graph(rows(edges@), order@),
        in_turn(rows(edges@), newest_first, order@),
{
    let ghost g = rows(edges@);
    let n: usize = edges.len();
    let mut deg = count_edges(edges);
    let mut waiting: Vec<usize> = Vec::new();
    for i in 0..n
        invariant
            n == deg@.len(),
            n == g.len(),
            forall|v: usize|
                v < n ==> #[trigger] deg@[v as int] == open_edges(g, Set::empty(), n as int, v),
            waiting@ == roots(g, i as int),
            waiting@.no_duplicates(),
            forall|k: int| 0 <= k < waiting@.len() ==> #[trigger] waiting@[k] < i,
            forall|v: usize| #[trigger] waiting@.contains(v) <==> v < i && deg@[v as int] == 0,
    {
        let ghost before = waiting@;
        if deg[i] == 0 {
            waiting.push(i);
            proof {
                lemma_push(before, i);
            }
        }
    }
    let mut order: Vec<usize> = Vec::new();
    let mut head: usize = 0;
    proof {
        assert(order@.to_set() =~= Set::<usize>::empty());
        assert(waiting@.skip(0) =~= waiting@);
        assert(walk_ok(g, deg@, waiting@, order@));
    }
    while head < waiting.len()
        invariant
            g == rows(edges@),
            n == edges@.len(),
            edges_ok(g),
            head <= waiting@.len(),
            walk_ok(g, deg@, waiting@.skip(head as int), order@),
            waiting@.skip(head as int) == ready_line(g, newest_first, order@),
            forall|i: int| 0 <= i < order@.len() ==> #[trigger] had_turn(g, newest_first, order@, i),
        decreases n - order@.len(),
    {
        let ghost list = waiting@.skip(head as int);
        let ghost before = order@;
        proof {
            lemma_order_len(g, order@);
        }
        let u: usize = if newest_first {
            let last: usize = waiting[waiting.len() - 1];
            let _ = waiting.pop();
            last
        } else {
            let first: usize = waiting[head];
            head = head + 1;
            first
        };
        let ghost left = waiting@.skip(head as int);
        proof {
            if newest_first {
                assert(left =~= list.drop_last());
                assert(list[list.len() - 1] == u);
            } else {
                assert(left =~= list.skip(1));
                assert(list[0] == u);
            }
            assert forall|v: usize| #[trigger] left.contains(v) <==> list.contains(v) && v != u by {
                if left.contains(v) {
                    let i = choose|i: int| 0 <= i < left.len() && left[i] == v;
                    if newest_first {
                        assert(list[i] == v);
                    } else {
                        assert(list[i + 1] == v);
                    }
                }
                if list.contains(v) && v != u {
                    let i = choose|i: int| 0 <= i < list.len() && list[i] == v;
                    if newest_first {
                        assert(left[i] == v);
                    } else {
                        assert(left[i - 1] == v);
                    }
                }
            }
            assert forall|i: int| 0 <= i < left.len() implies #[trigger] left[i] < g.len() by {
                if newest_first {
                    assert(list[i] == left[i]);
                } else {
                    assert(list[i + 1] == left[i]);
                }
            }
            assert(left.no_duplicates());
            lemma_take_node(g, deg@, list, before, u, left);
        }
        order.push(u);
        take_edges_off(edges, &mut deg, &mut waiting, head, u, Ghost(order@));
        proof {
            assert(order@.drop_last() =~= before);
            assert(waiting@.skip(head as int) == ready_line(g, newest_first, order@));
            assert forall|i: int| 0 <= i < order@.len() implies #[trigger] had_turn(
                g,
                newest_first,
                order@,
                i,
            ) by {
                assert(order@.take(i) =~= before.take(i));
                if i < before.len() {
                    assert(had_turn(g, newest_first, before, i));
                } else {
                    assert(before.take(i) =~= before);
                }
            }
            assert(g[u as int].skip(g[u as int].len() as int) =~= Seq::<usize>::empty());
            assert(walk_ok(g, deg@, waiting@.skip(head as int), order@));
            lemma_order_len(g, order@);
        }
    }
    proof {
        let list = waiting@.skip(head as int);
        assert(list.len() == 0);
        assert forall|v: usize| v < g.len() && !#[trigger] order@.contains(v) implies exists|u: usize|
            #[trigger] leads_to(g, u, v) && !order@.contains(u) by {
            assert(!list.contains(v));
            assert(deg@[v as int] != 0);
            lemma_open_zero(g, order@.to_set(), g.len() as int, v);
            let u = choose|u: usize| u < g.len() && #[trigger] leads_to(g, u, v) && !order@.to_set().contains(u);
            assert(leads_to(g, u, v) && !order@.contains(u));
        }
    }
    order
}

} // verus!
