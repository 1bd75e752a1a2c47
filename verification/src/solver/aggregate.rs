//! Grouping the unknowns of a linear system for a coarser system.

use vstd::prelude::*;

verus! {

/// The most levels that coarsening makes.
pub const MAX_LEVELS: usize = 20;

/// The size from which on a system is not coarsened.
pub const COARSE_SIZE: usize = 50;

/// A neighbour of an unknown, and how strongly the two are connected.
#[derive(Clone, Copy, PartialEq, Eq, Hash, Debug, Structural)]
pub struct Neighbour {
    pub node: usize,
    /// A measure that grows with the size of the entry between the two; zero for no connection.
    pub strength: u64,
}

/// The group of each unknown, while some have none yet, and the number of groups.
pub struct Groups {
    pub of: Seq<Option<usize>>,
    pub count: int,
}

/// None of the nodes has a group.
pub open spec fn all_free(of: Seq<Option<usize>>, nodes: Seq<usize>) -> bool {
    forall|k: int| 0 <= k < nodes.len() ==> of[#[trigger] nodes[k] as int] is None
}

/// The nodes of a list, the first `k` of them, join a group.
pub open spec fn joined(of: Seq<Option<usize>>, nodes: Seq<usize>, group: usize, k: int) -> Seq<Option<usize>>
    decreases k,
{
    if k <= 0 {
        of
    } else {
        joined(of, nodes, group, k - 1).update(nodes[k - 1] as int, Some(group))
    }
}

/// The groups after the first `i` unknowns were looked at: one that is free, and whose strong
/// neighbours are all free, forms a group with them.
pub open spec fn seeded_groups(strong: Seq<Seq<usize>>, i: int) -> Groups
    decreases i,
{
    if i <= 0 {
        Groups { of: Seq::new(strong.len(), |k: int| None), count: 0 }
    } else {
        let g = seeded_groups(strong, i - 1);
        let nodes = strong[i - 1];
        if g.of[i - 1] is None && all_free(g.of, nodes) {
            let group = g.count as usize;
            Groups {
                of: joined(g.of.update(i - 1, Some(group)), nodes, group, nodes.len() as int),
                count: g.count + 1,
            }
        } else {
            g
        }
    }
}

/// The group of the most strongly connected among the first `k` neighbours that have one; of
/// those connected alike the first.
pub open spec fn best_group(of: Seq<Option<usize>>, adj: Seq<Neighbour>, k: int) -> Option<Neighbour>
    decreases k,
{
    if k <= 0 {
        None
    } else {
        let best = best_group(of, adj, k - 1);
        let n = adj[k - 1];
        let beats = match best {
            Some(b) => n.strength > b.strength,
            None => n.strength > 0,
        };
        if of[n.node as int] is Some && beats {
            Some(Neighbour { node: of[n.node as int]->0, strength: n.strength })
        } else {
            best
        }
    }
}

/// The groups after the first `i` unknowns without one have got theirs: that of the best
/// neighbour, or a new one.
pub open spec fn completed_groups(start: Groups, adj: Seq<Seq<Neighbour>>, i: int) -> Groups
    decreases i,
{
    if i <= 0 {
        start
    } else {
        let g = completed_groups(start, adj, i - 1);
        if g.of[i - 1] is Some {
            g
        } else {
            match best_group(g.of, adj[i - 1], adj[i - 1].len() as int) {
                Some(b) => Groups { of: g.of.update(i - 1, Some(b.node)), count: g.count },
                None => Groups { of: g.of.update(i - 1, Some(g.count as usize)), count: g.count + 1 },
            }
        }
    }
}

/// The lists of a vector of vectors.
pub open spec fn lists<T>(v: Seq<Vec<T>>) -> Seq<Seq<T>> {
    Seq::new(v.len(), |i: int| v[i]@)
}

/// Some unknown is in the group.
pub open spec fn used(of: Seq<Option<usize>>, g: usize) -> bool {
    exists|i: int| 0 <= i < of.len() && #[trigger] of[i] == Some(g)
}

/// Every group number is below the number of groups, and is used.
pub open spec fn groups_ok(of: Seq<Option<usize>>, count: int) -> bool {
    &&& forall|i: int| 0 <= i < of.len() && (#[trigger] of[i]) is Some ==> of[i]->0 < count
    &&& forall|g: usize| g < count ==> #[trigger] used(of, g)
}

/// Neighbours and strong neighbours name unknowns of the system.
pub open spec fn graph_ok(adj: Seq<Seq<Neighbour>>, strong: Seq<Seq<usize>>) -> bool {
    &&& adj.len() == strong.len()
    &&& forall|i: int, k: int|
        0 <= i < adj.len() && 0 <= k < adj[i].len() ==> (#[trigger] adj[i][k]).node < adj.len()
    &&& forall|i: int, k: int|
        0 <= i < strong.len() && 0 <= k < strong[i].len() ==> #[trigger] strong[i][k] < strong.len()
}

proof fn lemma_joined(of: Seq<Option<usize>>, nodes: Seq<usize>, group: usize, k: int)
    requires
        0 <= k <= nodes.len(),
        forall|j: int| 0 <= j < nodes.len() ==> #[trigger] nodes[j] < of.len(),
    ensures
        joined(of, nodes, group, k).len() == of.len(),
        forall|i: int|
            0 <= i < of.len() ==> #[trigger] joined(of, nodes, group, k)[i] == of[i] || joined(
                of,
                nodes,
                group,
                k,
            )[i] == Some(group),
        forall|i: int|
            0 <= i < of.len() && !(exists|j: int| 0 <= j < k && #[trigger] nodes[j] == i) ==> #[trigger] joined(
                of,
                nodes,
                group,
                k,
            )[i] == of[i],
    decreases k,
{
    if k > 0 {
        lemma_joined(of, nodes, group, k - 1);
        let rest = joined(of, nodes, group, k - 1);
        let now = joined(of, nodes, group, k);
        assert(nodes[k - 1] < of.len());
        assert forall|i: int| 0 <= i < of.len() && !(exists|j: int| 0 <= j < k && #[trigger] nodes[j] == i) implies #[trigger] now[i]
            == of[i] by {
            assert(nodes[k - 1] != i);
            assert(!(exists|j: int| 0 <= j < k - 1 && #[trigger] nodes[j] == i));
            assert(rest[i] == of[i]);
        }
        assert forall|i: int| 0 <= i < of.len() implies #[trigger] now[i] == of[i] || now[i] == Some(group) by {
            assert(rest[i] == of[i] || rest[i] == Some(group));
        }
    }
}

proof fn lemma_seeded(strong: Seq<Seq<usize>>, i: int)
    requires
        0 <= i <= strong.len() <= usize::MAX,
        forall|a: int, k: int|
            0 <= a < strong.len() && 0 <= k < strong[a].len() ==> #[trigger] strong[a][k] < strong.len(),
    ensures
        seeded_groups(strong, i).of.len() == strong.len(),
        0 <= seeded_groups(strong, i).count <= i,
        groups_ok(seeded_groups(strong, i).of, seeded_groups(strong, i).count),
    decreases i,
{
    let now = seeded_groups(strong, i);
    if i > 0 {
        lemma_seeded(strong, i - 1);
        let g = seeded_groups(strong, i - 1);
        let nodes = strong[i - 1];
        if g.of[i - 1] is None && all_free(g.of, nodes) {
            let group = g.count as usize;
            let mid = g.of.update(i - 1, Some(group));
            assert forall|j: int| 0 <= j < nodes.len() implies #[trigger] nodes[j] < mid.len() by {
                assert(strong[i - 1][j] < strong.len());
            }
            lemma_joined(mid, nodes, group, nodes.len() as int);
            assert forall|a: int| 0 <= a < now.of.len() && (#[trigger] now.of[a]) is Some implies now.of[a]->0
                < now.count by {
                if now.of[a] != Some(group) {
                    assert(now.of[a] == mid[a]);
                    assert(g.of[a] is Some);
                }
            }
            assert forall|x: usize| x < now.count implies #[trigger] used(now.of, x) by {
                if x == group {
                    assert(now.of[i - 1] == Some(group));
                } else {
                    assert(used(g.of, x));
                    let a = choose|a: int| 0 <= a < g.of.len() && #[trigger] g.of[a] == Some(x);
                    if exists|j: int| 0 <= j < nodes.len() && #[trigger] nodes[j] == a {
                        let j = choose|j: int| 0 <= j < nodes.len() && #[trigger] nodes[j] == a;
                        assert(g.of[nodes[j] as int] is None);
                    }
                    assert(mid[a] == g.of[a]);
                    assert(now.of[a] == Some(x));
                }
            }
        }
    }
}

proof fn lemma_best(of: Seq<Option<usize>>, adj: Seq<Neighbour>, k: int, count: int)
    requires
        0 <= k <= adj.len(),
        forall|j: int| 0 <= j < adj.len() ==> (#[trigger] adj[j]).node < of.len(),
        forall|i: int| 0 <= i < of.len() && (#[trigger] of[i]) is Some ==> of[i]->0 < count,
    ensures
        best_group(of, adj, k) is Some ==> best_group(of, adj, k)->0.node < count,
    decreases k,
{
    if k > 0 {
        lemma_best(of, adj, k - 1, count);
        assert(adj[k - 1].node < of.len());
    }
}

proof fn lemma_completed(start: Groups, adj: Seq<Seq<Neighbour>>, i: int)
    requires
        0 <= i <= adj.len() <= usize::MAX,
        start.of.len() == adj.len(),
        0 <= start.count,
        groups_ok(start.of, start.count),
        forall|a: int, k: int|
            0 <= a < adj.len() && 0 <= k < adj[a].len() ==> (#[trigger] adj[a][k]).node < adj.len(),
    ensures
        completed_groups(start, adj, i).of.len() == adj.len(),
        start.count <= completed_groups(start, adj, i).count <= adj.len(),
        groups_ok(completed_groups(start, adj, i).of, completed_groups(start, adj, i).count),
        forall|a: int| 0 <= a < i ==> (#[trigger] completed_groups(start, adj, i).of[a]) is Some,
    decreases i,
{
    let now = completed_groups(start, adj, i);
    if i > 0 {
        lemma_completed(start, adj, i - 1);
        let g = completed_groups(start, adj, i - 1);
        if g.of[i - 1] is None {
            assert forall|j: int| 0 <= j < adj[i - 1].len() implies (#[trigger] adj[i - 1][j]).node < g.of.len() by {
            }
            lemma_best(g.of, adj[i - 1], adj[i - 1].len() as int, g.count);
            lemma_count_bound(g.of, g.count, i - 1);
            assert forall|x: usize| x < now.count implies #[trigger] used(now.of, x) by {
                if x < g.count {
                    assert(used(g.of, x));
                    let a = choose|a: int| 0 <= a < g.of.len() && #[trigger] g.of[a] == Some(x);
                    assert(now.of[a] == Some(x));
                } else {
                    assert(now.of[i - 1] == Some(x));
                }
            }
        }
    }
    lemma_count_at_most(now.of, now.count);
}

proof fn lemma_count_at_most(of: Seq<Option<usize>>, count: int)
    requires
        0 <= count,
        groups_ok(of, count),
        of.len() <= usize::MAX,
    ensures
        count <= of.len(),
{
    if count > of.len() {
        lemma_pigeons(of, of.len() as int + 1);
    }
}

/// A node without a group leaves room for one more group.
proof fn lemma_count_bound(of: Seq<Option<usize>>, count: int, i: int)
    requires
        0 <= i < of.len() <= usize::MAX,
        of[i] is None,
        0 <= count,
        groups_ok(of, count),
    ensures
        count < of.len(),
{
    let rest = of.remove(i);
    assert forall|x: usize| x < count implies #[trigger] used(rest, x) by {
        assert(used(of, x));
        let a = choose|a: int| 0 <= a < of.len() && #[trigger] of[a] == Some(x);
        if a < i {
            assert(rest[a] == Some(x));
        } else {
            assert(rest[a - 1] == Some(x));
        }
    }
    if count > rest.len() {
        lemma_pigeons(rest, rest.len() as int + 1);
    }
}

/// Numbers that all stand in a list are at most as many as its places.
proof fn lemma_pigeons(of: Seq<Option<usize>>, n: int)
    requires
        0 <= n <= usize::MAX + 1,
        forall|x: usize| x < n ==> #[trigger] used(of, x),
    ensures
        n <= of.len(),
    decreases n,
{
    if n > 0 {
        let x = (n - 1) as usize;
        assert(used(of, x));
        let a = choose|a: int| 0 <= a < of.len() && #[trigger] of[a] == Some(x);
        let rest = of.remove(a);
        assert forall|y: usize| y < n - 1 implies #[trigger] used(rest, y) by {
            assert(used(of, y));
            let b = choose|b: int| 0 <= b < of.len() && #[trigger] of[b] == Some(y);
            if b < a {
                assert(rest[b] == Some(y));
            } else {
                assert(rest[b - 1] == Some(y));
            }
        }
        lemma_pigeons(rest, n - 1);
    }
}

/// The groups of the unknowns of a system.
pub struct Aggregates {
    pub group: Vec<usize>,
    pub count: usize,
}

/// The groups of a system by its graph: groups around free unknowns first, then the rest.
pub open spec fn groups_of(adj: Seq<Seq<Neighbour>>, strong: Seq<Seq<usize>>) -> Groups {
    completed_groups(seeded_groups(strong, strong.len() as int), adj, adj.len() as int)
}

/// Every unknown is in one group, and no group is empty.
pub proof fn groups_cover(adj: Seq<Seq<Neighbour>>, strong: Seq<Seq<usize>>)
    requires
        graph_ok(adj, strong),
        adj.len() <= usize::MAX,
    ensures
        groups_of(adj, strong).of.len() == adj.len(),
        0 <= groups_of(adj, strong).count <= adj.len(),
        groups_ok(groups_of(adj, strong).of, groups_of(adj, strong).count),
        forall|a: int| 0 <= a < adj.len() ==> (#[trigger] groups_of(adj, strong).of[a]) is Some,
{
    lemma_seeded(strong, strong.len() as int);
    lemma_completed(seeded_groups(strong, strong.len() as int), adj, adj.len() as int);
}

fn seed_groups(strong: &Vec<Vec<usize>>) -> (r: (Vec<Option<usize>>, usize))
    requires
        forall|a: int, k: int|
            0 <= a < strong@.len() && 0 <= k < lists(strong@)[a].len() ==> #[trigger] lists(strong@)[a][k]
                < strong@.len(),
    ensures
        (Groups { of: r.0@, count: r.1 as int }) == seeded_groups(lists(strong@), strong@.len() as int),
{
    let ghost s = lists(strong@);
    let n: usize = strong.len();
    let mut of: Vec<Option<usize>> = Vec::new();
    for i in 0..n
        invariant
            of@.len() == i,
            forall|k: int| 0 <= k < i ==> (#[trigger] of@[k]) is None,
    {
        of.push(None);
    }
    let mut count: usize = 0;
    assert(of@ =~= seeded_groups(s, 0).of);
    for i in 0..n
        invariant
            s == lists(strong@),
            n == strong@.len(),
            forall|a: int, k: int| 0 <= a < n && 0 <= k < s[a].len() ==> #[trigger] s[a][k] < n,
            of@.len() == n,
            (Groups { of: of@, count: count as int }) == seeded_groups(s, i as int),
    {
        let nodes = &strong[i];
        assert(s[i as int] == nodes@);
        proof {
            lemma_seeded(s, i as int);
        }
        let mut free: bool = of[i].is_none();
        let own: bool = free;
        for k in 0..nodes.len()
            invariant
                of@.len() == n,
                i < n,
                s[i as int] == nodes@,
                forall|a: int, j: int| 0 <= a < n && 0 <= j < s[a].len() ==> #[trigger] s[a][j] < n,
                free == (own && forall|j: int| 0 <= j < k ==> of@[#[trigger] nodes@[j] as int] is None),
        {
            assert(s[i as int][k as int] < n);
            if of[nodes[k]].is_some() {
                assert(of@[nodes@[k as int] as int] is Some);
                free = false;
            }
        }
        if free {
            let group: usize = count;
            count = count + 1;
            of.set(i, Some(group));
            let ghost mid = of@;
            for k in 0..nodes.len()
                invariant
                    of@.len() == n,
                    i < n,
                    s[i as int] == nodes@,
                    forall|a: int, j: int| 0 <= a < n && 0 <= j < s[a].len() ==> #[trigger] s[a][j] < n,
                    of@ == joined(mid, nodes@, group, k as int),
            {
                assert(s[i as int][k as int] < n);
                of.set(nodes[k], Some(group));
            }
        }
    }
    (of, count)
}

/// Groups the unknowns of a system: an unknown whose strong neighbours are all free forms a group
/// with them; one that is left over joins the group of the neighbour that it is connected to most
/// strongly, or stays alone.
pub fn aggregate(adj: &Vec<Vec<Neighbour>>, strong: &Vec<Vec<usize>>) -> (r: Aggregates)
    requires
        graph_ok(lists(adj@), lists(strong@)),
    ensures
        r.group@.len() == adj@.len(),
        r.count == groups_of(lists(adj@), lists(strong@)).count,
        forall|i: int|
            0 <= i < r.group@.len() ==> Some(#[trigger] r.group@[i]) == groups_of(
                lists(adj@),
                lists(strong@),
            ).of[i],
        forall|i: int| 0 <= i < r.group@.len() ==> #[trigger] r.group@[i] < r.count,
{
    let ghost a = lists(adj@);
    let ghost s = lists(strong@);
    let n: usize = adj.len();
    assert(strong@.len() == n);
    let (mut of, mut count) = seed_groups(strong);
    let ghost start = seeded_groups(s, n as int);
    proof {
        lemma_seeded(s, n as int);
    }
    for i in 0..n
        invariant
            a == lists(adj@),
            n == adj@.len(),
            n == a.len(),
            of@.len() == n,
            start.of.len() == n,
            0 <= start.count,
            groups_ok(start.of, start.count),
            forall|x: int, k: int| 0 <= x < n && 0 <= k < a[x].len() ==> (#[trigger] a[x][k]).node < n,
            (Groups { of: of@, count: count as int }) == completed_groups(start, a, i as int),
    {
        let list = &adj[i];
        assert(a[i as int] == list@);
        proof {
            lemma_completed(start, a, i as int);
        }
        if of[i].is_none() {
            proof {
                lemma_count_bound(of@, count as int, i as int);
            }
            let mut best: Option<Neighbour> = None;
            for k in 0..list.len()
                invariant
                    of@.len() == n,
                    i < n,
                    a[i as int] == list@,
                    forall|x: int, j: int| 0 <= x < n && 0 <= j < a[x].len() ==> (#[trigger] a[x][j]).node < n,
                    best == best_group(of@, list@, k as int),
            {
                let nb: Neighbour = list[k];
                assert(a[i as int][k as int].node < n);
                let beats: bool = match best {
                    Some(b) => nb.strength > b.strength,
                    None => nb.strength > 0,
                };
                if let Some(g) = of[nb.node] {
                    if beats {
                        best = Some(Neighbour { node: g, strength: nb.strength });
                    }
                }
            }
            match best {
                Some(b) => {
                    of.set(i, Some(b.node));
                },
                None => {
                    of.set(i, Some(count));
                    count = count + 1;
                },
            }
        }
    }
    proof {
        groups_cover(a, s);
    }
    let mut group: Vec<usize> = Vec::new();
    for i in 0..n
        invariant
            of@.len() == n,
            forall|k: int| 0 <= k < n ==> (#[trigger] of@[k]) is Some,
            group@.len() == i,
            forall|k: int| 0 <= k < i ==> Some(#[trigger] group@[k]) == of@[k],
    {
        let g: usize = match of[i] {
            Some(g) => g,
            None => 0,
        };
        assert(of@[i as int] is Some);
        group.push(g);
    }
    Aggregates { group, count }
}

/// Whether a system of a size is coarsened, after so many levels were made.
pub fn is_coarsened(n: usize, levels: usize) -> (r: bool)
    ensures
        r == (levels < MAX_LEVELS && n > COARSE_SIZE),
{
    levels < MAX_LEVELS && n > COARSE_SIZE
}

/// Whether grouping makes a smaller system.
pub fn makes_progress(n: usize, groups: usize) -> (r: bool)
    ensures
        r == (0 < groups < n),
{
    groups > 0 && groups < n
}

/// The sizes of the systems of a hierarchy, the finest first.
pub struct LevelSizes {
    pub sizes: Vec<usize>,
}

impl LevelSizes {
    /// Each system is smaller than the one before, all but the last were large enough to be coarsened,
    /// and no more were coarsened than may be.
    pub open spec fn wf(self) -> bool {
        &&& 1 <= self.sizes@.len() <= MAX_LEVELS + 1
        &&& forall|i: int, j: int| 0 <= i < j < self.sizes@.len() ==> self.sizes@[i] > self.sizes@[j]
        &&& forall|i: int| 0 <= i < self.sizes@.len() - 1 ==> #[trigger] self.sizes@[i] > COARSE_SIZE
    }

    /// The system that is to be solved, before any coarsening.
    pub fn new(n: usize) -> (r: Self)
        ensures
            r.wf(),
            r.sizes@ == seq![n],
    {
        let mut sizes: Vec<usize> = Vec::new();
        sizes.push(n);
        assert(sizes@ =~= seq![n]);
        LevelSizes { sizes }
    }

    /// Whether the last system is coarsened.
    pub fn goes_on(&self) -> (r: bool)
        requires
            self.wf(),
        ensures
            r == (self.sizes@.len() <= MAX_LEVELS && self.sizes@.last() > COARSE_SIZE),
    {
        let made: usize = self.sizes.len() - 1;
        is_coarsened(self.sizes[made], made)
    }

    /// Adds the system that the groups of the last one make, if that one is coarsened and the new one is
    /// smaller; whether it was added.
    pub fn coarsen(&mut self, groups: usize) -> (r: bool)
        requires
            old(self).wf(),
        ensures
            final(self).wf(),
            r == (old(self).sizes@.len() <= MAX_LEVELS && old(self).sizes@.last() > COARSE_SIZE && 0 < groups
                < old(self).sizes@.last()),
            final(self).sizes@ == (if r {
                old(self).sizes@.push(groups)
            } else {
                old(self).sizes@
            }),
    {
        let last: usize = self.sizes[self.sizes.len() - 1];
        if self.goes_on() && makes_progress(last, groups) {
            self.sizes.push(groups);
            true
        } else {
            false
        }
    }

    /// The sizes fall strictly from the first, all but the last are above the limit of coarsening, and
    /// there are at most so many; a system within the limit is the only one.
    pub proof fn levels_shrink(self)
        requires
            self.wf(),
        ensures
            1 <= self.sizes@.len() <= 21,
            forall|i: int| 0 < i < self.sizes@.len() ==> self.sizes@[i - 1] > #[trigger] self.sizes@[i],
            forall|i: int| 0 <= i < self.sizes@.len() - 1 ==> #[trigger] self.sizes@[i] > 50,
            self.sizes@[0] <= 50 ==> self.sizes@ == seq![self.sizes@[0]],
    {
        if self.sizes@[0] <= 50 {
            assert(self.sizes@ =~= seq![self.sizes@[0]]);
        }
    }
}

/// The number of smoothing steps on the coarsest system: three for each unknown, at least 20 and
/// at most 200.
pub fn coarsest_steps(n: usize) -> (r: usize)
    ensures
        r == if 3 * n < 20 {
            20
        } else if 3 * n > 200 {
            200
        } else {
            3 * n
        },
{
    if n > 66 {
        200
    } else if n < 7 {
        20
    } else {
        3 * n
    }
}

/// Where the entry between two unknowns goes in the coarser system.
#[derive(Clone, Copy, PartialEq, Eq, Hash, Debug, Structural)]
pub enum CoarseSlot {
    /// Both are in one group: the entry goes to its diagonal.
    Diagonal(usize),
    /// The entry goes between two groups, the smaller one first.
    Between(usize, usize),
}

/// Where the entry between two unknowns goes, by their groups.
pub fn coarse_slot(a: usize, b: usize) -> (r: CoarseSlot)
    ensures
        r == if a == b {
            CoarseSlot::Diagonal(a)
        } else if a < b {
            CoarseSlot::Between(a, b)
        } else {
            CoarseSlot::Between(b, a)
        },
{
    if a == b {
        CoarseSlot::Diagonal(a)
    } else if a < b {
        CoarseSlot::Between(a, b)
    } else {
        CoarseSlot::Between(b, a)
    }
}

} // verus!
