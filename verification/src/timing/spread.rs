//! Spreading marks along the edges of a graph until nothing changes.

use crate::timing::levels::{edges_ok, leads_to, rows};
use vstd::prelude::*;

verus! {

/// A mark at a node.
#[derive(Clone, Copy, PartialEq, Eq, Hash, Debug, Structural)]
pub struct Mark {
    pub node: usize,
    pub mark: u32,
}

/// The marks at the nodes of a graph.
pub open spec fn marks(sets: Seq<Vec<u32>>) -> Set<Mark> {
    Set::new(|m: Mark| m.node < sets.len() && sets[m.node as int]@.contains(m.mark))
}

/// Marks go along every edge.
pub open spec fn goes_along(edges: Seq<Seq<usize>>, all: Set<Mark>) -> bool {
    forall|u: usize, v: usize, d: u32| #[trigger]
        leads_to(edges, u, v) && #[trigger] all.contains(Mark { node: u, mark: d }) ==> all.contains(
            Mark { node: v, mark: d },
        )
}

/// The marks are the seeds and what they spread to, and nothing else: they hold the seeds, go
/// along every edge, and lie in every set that does so.
pub open spec fn spread_of(edges: Seq<Seq<usize>>, seeds: Set<Mark>, all: Set<Mark>) -> bool {
    &&& seeds.subset_of(all)
    &&& goes_along(edges, all)
    &&& forall|other: Set<Mark>| #[trigger]
        goes_along(edges, other) && seeds.subset_of(other) ==> all.subset_of(other)
}

/// Only one set of marks is the spread of given seeds.
pub proof fn spread_is_one(edges: Seq<Seq<usize>>, seeds: Set<Mark>, a: Set<Mark>, b: Set<Mark>)
    requires
        spread_of(edges, seeds, a),
        spread_of(edges, seeds, b),
    ensures
        a == b,
{
    assert(goes_along(edges, b) && seeds.subset_of(b));
    assert(goes_along(edges, a) && seeds.subset_of(a));
    assert(a =~= b);
}

/// No node has a mark twice, and every mark is below the limit.
pub open spec fn lists_ok(sets: Seq<Vec<u32>>, limit: int) -> bool {
    forall|v: int|
        0 <= v < sets.len() ==> (#[trigger] sets[v])@.no_duplicates() && forall|i: int|
            0 <= i < sets[v]@.len() ==> sets[v]@[i] < limit
}

/// The number of marks that the first `n` nodes have room for.
pub open spec fn room(sets: Seq<Vec<u32>>, limit: int, n: int) -> int
    decreases n,
{
    if n <= 0 {
        0
    } else {
        room(sets, limit, n - 1) + (limit - sets[n - 1]@.len())
    }
}

proof fn lemma_list_len(s: Seq<u32>, limit: int)
    requires
        s.no_duplicates(),
        forall|i: int| 0 <= i < s.len() ==> #[trigger] s[i] < limit,
        limit >= 0,
    ensures
        s.len() <= limit,
{
    let ints = s.map_values(|x: u32| x as int);
    assert(ints.no_duplicates()) by {
        assert forall|i: int, j: int| 0 <= i < ints.len() && 0 <= j < ints.len() && i != j implies ints[i]
            != ints[j] by {
            assert(s[i] != s[j]);
        }
    }
    ints.unique_seq_to_set();
    let range = vstd::set_lib::set_int_range(0, limit);
    vstd::set_lib::lemma_int_range(0, limit);
    assert(ints.to_set().subset_of(range)) by {
        assert forall|x: int| ints.to_set().contains(x) implies range.contains(x) by {
            let i = choose|i: int| 0 <= i < ints.len() && ints[i] == x;
            assert(s[i] < limit);
        }
    }
    vstd::set_lib::lemma_len_subset(ints.to_set(), range);
}

proof fn lemma_room(sets: Seq<Vec<u32>>, limit: int, n: int)
    requires
        0 <= n <= sets.len(),
        lists_ok(sets, limit),
        limit >= 0,
    ensures
        room(sets, limit, n) >= 0,
    decreases n,
{
    if n > 0 {
        lemma_room(sets, limit, n - 1);
        assert(lists_ok(sets, limit));
        lemma_list_len(sets[n - 1]@, limit);
    }
}

proof fn lemma_room_less(sets: Seq<Vec<u32>>, next: Seq<Vec<u32>>, limit: int, v: int, n: int)
    requires
        0 <= v < sets.len(),
        next.len() == sets.len(),
        0 <= n <= sets.len(),
        forall|i: int| 0 <= i < sets.len() && i != v ==> next[i] == sets[i],
        next[v]@.len() == sets[v]@.len() + 1,
    ensures
        room(next, limit, n) == room(sets, limit, n) - (if v < n {
            1int
        } else {
            0int
        }),
    decreases n,
{
    if n > 0 {
        lemma_room_less(sets, next, limit, v, n - 1);
    }
}

/// Gives a node a mark; returns whether it is new there.
pub(crate) fn add_mark(sets: &mut Vec<Vec<u32>>, v: usize, d: u32, Ghost(limit): Ghost<int>) -> (fresh: bool)
    requires
        v < old(sets)@.len(),
        lists_ok(old(sets)@, limit),
        d < limit,
    ensures
        final(sets)@.len() == old(sets)@.len(),
        lists_ok(final(sets)@, limit),
        marks(final(sets)@) == marks(old(sets)@).insert(Mark { node: v, mark: d }),
        fresh == !marks(old(sets)@).contains(Mark { node: v, mark: d }),
        !fresh ==> final(sets)@ == old(sets)@,
        fresh ==> room(final(sets)@, limit, final(sets)@.len() as int) == room(
            old(sets)@,
            limit,
            old(sets)@.len() as int,
        ) - 1,
        forall|i: int| 0 <= i < old(sets)@.len() && i != v ==> final(sets)@[i] == old(sets)@[i],
        forall|i: int|
            0 <= i < old(sets)@[v as int]@.len() ==> #[trigger] final(sets)@[v as int]@[i] == old(
                sets,
            )@[v as int]@[i],
        final(sets)@[v as int]@.len() >= old(sets)@[v as int]@.len(),
{
    let ghost before = sets@;
    let len: usize = sets[v].len();
    for i in 0..len
        invariant
            sets@ == before,
            len == before[v as int]@.len(),
            v < before.len(),
            lists_ok(before, limit),
            forall|k: int| 0 <= k < i ==> #[trigger] before[v as int]@[k] != d,
    {
        if sets[v][i] == d {
            proof {
                assert(before[v as int]@.contains(d));
                assert(marks(sets@) =~= marks(before).insert(Mark { node: v, mark: d }));
            }
            return false;
        }
    }
    sets[v].push(d);
    proof {
        let now = sets@;
        assert(now[v as int]@ == before[v as int]@.push(d));
        assert(!before[v as int]@.contains(d));
        assert forall|m: Mark| marks(now).contains(m) <==> marks(before).insert(Mark { node: v, mark: d }).contains(
            m,
        ) by {
            if m.node == v {
                lemma_mark_push(before[v as int]@, d);
            } else if m.node < before.len() {
                assert(now[m.node as int] == before[m.node as int]);
            }
        }
        assert(marks(now) =~= marks(before).insert(Mark { node: v, mark: d }));
        lemma_room_less(before, now, limit, v as int, now.len() as int);
        assert forall|x: int| 0 <= x < now.len() implies (#[trigger] now[x])@.no_duplicates() && forall|i: int|
            0 <= i < now[x]@.len() ==> now[x]@[i] < limit by {
            assert(lists_ok(before, limit));
            assert(before[x]@.no_duplicates());
            if x == v {
                lemma_mark_push(before[v as int]@, d);
            }
        }
    }
    true
}

proof fn lemma_mark_push(s: Seq<u32>, v: u32)
    ensures
        forall|x: u32| #[trigger] s.push(v).contains(x) <==> s.contains(x) || x == v,
        s.no_duplicates() && !s.contains(v) ==> s.push(v).no_duplicates(),
{
    let next = s.push(v);
    assert forall|x: u32| #[trigger] next.contains(x) <==> s.contains(x) || x == v by {
        if s.contains(x) {
            let i = choose|i: int| 0 <= i < s.len() && s[i] == x;
            assert(next[i] == x);
        }
        if x == v {
            assert(next[s.len() as int] == v);
        }
        if next.contains(x) {
            let i = choose|i: int| 0 <= i < next.len() && next[i] == x;
            if i < s.len() {
                assert(s[i] == x);
            }
        }
    }
}

/// Every set that holds the seeds and goes along all edges holds the marks.
spec fn within_all(edges: Seq<Seq<usize>>, seeds: Set<Mark>, all: Set<Mark>) -> bool {
    forall|other: Set<Mark>| #[trigger]
        goes_along(edges, other) && seeds.subset_of(other) ==> all.subset_of(other)
}

/// The marks of a node are at the end of an edge as well.
spec fn edge_done(sets: Seq<Vec<u32>>, u: int, v: int) -> bool {
    forall|d: u32| #[trigger] sets[u]@.contains(d) ==> sets[v]@.contains(d)
}

/// Takes the marks of a node along an edge; returns whether anything is new.
fn merge_into(
    sets: &mut Vec<Vec<u32>>,
    u: usize,
    v: usize,
    Ghost(limit): Ghost<int>,
    Ghost(edges): Ghost<Seq<Seq<usize>>>,
    Ghost(seeds): Ghost<Set<Mark>>,
) -> (fresh: bool)
    requires
        u < old(sets)@.len(),
        v < old(sets)@.len(),
        lists_ok(old(sets)@, limit),
        leads_to(edges, u, v),
        seeds.subset_of(marks(old(sets)@)),
        within_all(edges, seeds, marks(old(sets)@)),
    ensures
        final(sets)@.len() == old(sets)@.len(),
        lists_ok(final(sets)@, limit),
        seeds.subset_of(marks(final(sets)@)),
        within_all(edges, seeds, marks(final(sets)@)),
        !fresh ==> final(sets)@ == old(sets)@ && edge_done(old(sets)@, u as int, v as int),
        fresh ==> room(final(sets)@, limit, final(sets)@.len() as int) < room(
            old(sets)@,
            limit,
            old(sets)@.len() as int,
        ),
{
    if u == v {
        return false;
    }
    let ghost before = sets@;
    let mut fresh: bool = false;
    let n: usize = sets[u].len();
    for i in 0..n
        invariant
            u < sets@.len(),
            v < sets@.len(),
            u != v,
            sets@.len() == before.len(),
            sets@[u as int] == before[u as int],
            n == before[u as int]@.len(),
            lists_ok(sets@, limit),
            leads_to(edges, u, v),
            seeds.subset_of(marks(sets@)),
            within_all(edges, seeds, marks(sets@)),
            !fresh ==> sets@ == before,
            !fresh ==> forall|k: int| 0 <= k < i ==> before[v as int]@.contains(#[trigger] before[u as int]@[k]),
            fresh ==> room(sets@, limit, sets@.len() as int) < room(before, limit, before.len() as int),
    {
        let d: u32 = sets[u][i];
        let ghost held = sets@;
        proof {
            assert(lists_ok(held, limit));
            assert(held[u as int]@[i as int] < limit);
            assert(marks(held).contains(Mark { node: u, mark: d })) by {
                assert(held[u as int]@[i as int] == d);
            }
        }
        let new: bool = add_mark(sets, v, d, Ghost(limit));
        if new {
            fresh = true;
        }
        proof {
            assert forall|other: Set<Mark>| #[trigger] goes_along(edges, other) && seeds.subset_of(other) implies marks(
                sets@,
            ).subset_of(other) by {
                assert(marks(held).subset_of(other));
                assert(other.contains(Mark { node: u, mark: d }));
                assert(other.contains(Mark { node: v, mark: d }));
            }
            if !new {
                assert(held[v as int]@.contains(d));
            }
        }
    }
    proof {
        if !fresh {
            assert forall|d: u32| #[trigger] before[u as int]@.contains(d) implies before[v as int]@.contains(d) by {
                let k = choose|k: int| 0 <= k < before[u as int]@.len() && before[u as int]@[k] == d;
                assert(before[v as int]@.contains(before[u as int]@[k]));
            }
        }
    }
    fresh
}

/// Spreads marks along the edges of a graph until nothing changes. The nodes are gone through
/// from the first to the last, or from the last to the first.
pub(crate) fn spread(edges: &Vec<Vec<usize>>, sets: &mut Vec<Vec<u32>>, from_last: bool, Ghost(limit): Ghost<int>)
    requires
        edges_ok(rows(edges@)),
        old(sets)@.len() == edges@.len(),
        lists_ok(old(sets)@, limit),
        limit >= 0,
    ensures
        final(sets)@.len() == edges@.len(),
        lists_ok(final(sets)@, limit),
        spread_of(rows(edges@), marks(old(sets)@), marks(final(sets)@)),
{
    let ghost g = rows(edges@);
    let ghost seeds = marks(sets@);
    let n: usize = edges.len();
    let mut changed: bool = true;
    while changed
        invariant
            g == rows(edges@),
            n == edges@.len(),
            edges_ok(g),
            sets@.len() == n,
            lists_ok(sets@, limit),
            limit >= 0,
            seeds.subset_of(marks(sets@)),
            within_all(g, seeds, marks(sets@)),
            !changed ==> forall|u: int, k: int|
                0 <= u < n && 0 <= k < edges@[u]@.len() ==> edge_done(sets@, u, #[trigger] edges@[u]@[k] as int),
        decreases room(sets@, limit, n as int) + (if changed {
            1int
        } else {
            0int
        }),
    {
        changed = false;
        let ghost before = sets@;
        proof {
            lemma_room(before, limit, n as int);
        }
        for i in 0..n
            invariant
                g == rows(edges@),
                n == edges@.len(),
                edges_ok(g),
                sets@.len() == n,
                before.len() == n,
                lists_ok(sets@, limit),
                limit >= 0,
                seeds.subset_of(marks(sets@)),
                within_all(g, seeds, marks(sets@)),
                !changed ==> sets@ == before,
                !changed ==> forall|u: int, k: int|
                    (if from_last {
                        n - i <= u < n
                    } else {
                        0 <= u < i
                    }) && 0 <= k < edges@[u]@.len() ==> edge_done(before, u, #[trigger] edges@[u]@[k] as int),
                changed ==> room(sets@, limit, n as int) < room(before, limit, n as int),
        {
            let u: usize = if from_last {
                n - 1 - i
            } else {
                i
            };
            let len: usize = edges[u].len();
            for k in 0..len
                invariant
                    len == edges@[u as int]@.len(),
                    g == rows(edges@),
                    n == edges@.len(),
                    u < n,
                    edges_ok(g),
                    sets@.len() == n,
                    before.len() == n,
                    lists_ok(sets@, limit),
                    seeds.subset_of(marks(sets@)),
                    within_all(g, seeds, marks(sets@)),
                    !changed ==> sets@ == before,
                    !changed ==> forall|j: int|
                        0 <= j < k ==> edge_done(before, u as int, #[trigger] edges@[u as int]@[j] as int),
                    changed ==> room(sets@, limit, n as int) < room(before, limit, n as int),
                    !changed ==> forall|w: int, j: int|
                        (if from_last {
                            n - i <= w < n
                        } else {
                            0 <= w < i
                        }) && 0 <= j < edges@[w]@.len() ==> edge_done(
                            before,
                            w,
                            #[trigger] edges@[w]@[j] as int,
                        ),
            {
                let v: usize = edges[u][k];
                proof {
                    assert(g[u as int][k as int] < g.len());
                    assert(g[u as int].contains(v)) by {
                        assert(g[u as int][k as int] == v);
                    }
                    assert(leads_to(g, u, v));
                }
                if merge_into(sets, u, v, Ghost(limit), Ghost(g), Ghost(seeds)) {
                    changed = true;
                }
            }
        }
        proof {
            lemma_room(sets@, limit, n as int);
        }
    }
    proof {
        let all = marks(sets@);
        assert forall|u: usize, v: usize, d: u32| #[trigger]
            leads_to(g, u, v) && #[trigger] all.contains(Mark { node: u, mark: d }) implies all.contains(
            Mark { node: v, mark: d },
        ) by {
            let k = choose|k: int| 0 <= k < g[u as int].len() && g[u as int][k] == v;
            assert(edges@[u as int]@[k] == v);
            assert(edge_done(sets@, u as int, edges@[u as int]@[k] as int));
            assert(g[u as int][k] < g.len());
        }
    }
}

} // verus!
