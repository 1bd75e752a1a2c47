//! How unknowns are grouped, and what the entries of symmetric matrices are.

use crate::solver::aggregate::{best_group, completed_groups, joined, seeded_groups, Groups, Neighbour};
use crate::solver::triplets::{diagonal_entries, mirrored_entries, Entry};
use vstd::prelude::*;

verus! {

/// A symmetric matrix has each entry off the diagonal twice, once as it is and once with row and column
/// exchanged.
pub proof fn every_entry_has_its_mirror_image<T>(off_diag: Seq<Entry<T>>, k: int)
    requires
        0 <= k <= off_diag.len(),
    ensures
        mirrored_entries(off_diag, k).len() == 2 * k,
        forall|i: int|
            0 <= i < k ==> {
                let e = #[trigger] off_diag[i];
                let m = mirrored_entries(off_diag, k)[2 * i + 1];
                &&& mirrored_entries(off_diag, k)[2 * i] == e
                &&& m.row == e.col
                &&& m.col == e.row
                &&& m.val == e.val
            },
    decreases k,
{
    if k > 0 {
        every_entry_has_its_mirror_image(off_diag, k - 1);
    }
}

/// An entry on the diagonal stands in the row and column of its place.
pub proof fn diagonal_entries_stand_on_the_diagonal<T>(diag: Seq<T>, i: int)
    requires
        0 <= i < diag.len() <= usize::MAX,
    ensures
        diagonal_entries(diag, diag.len() as int).len() == diag.len(),
        diagonal_entries(diag, diag.len() as int)[i].row == i,
        diagonal_entries(diag, diag.len() as int)[i].col == i,
        diagonal_entries(diag, diag.len() as int)[i].val == diag[i],
{
}

/// The neighbour counts: it has a group, and the two are connected.
pub open spec fn eligible(of: Seq<Option<usize>>, n: Neighbour) -> bool {
    of[n.node as int] is Some && n.strength > 0
}

/// The group that an unknown joins is that of the neighbour with a group that it is connected to most
/// strongly, the first of those connected alike; it joins none where no such neighbour is.
pub proof fn the_strongest_neighbour_counts(of: Seq<Option<usize>>, adj: Seq<Neighbour>, k: int)
    requires
        0 <= k <= adj.len(),
    ensures
        ({
            let best = best_group(of, adj, k);
            &&& forall|i: int|
                0 <= i < k && eligible(of, #[trigger] adj[i]) ==> best is Some && best->0.strength >= adj[i].strength
            &&& best is Some ==> exists|i: int| #[trigger]
                is_first_best(of, adj, k, i) && of[adj[i].node as int] == Some(best->0.node) && adj[i].strength
                    == best->0.strength
        }),
    decreases k,
{
    if k > 0 {
        the_strongest_neighbour_counts(of, adj, k - 1);
        let before = best_group(of, adj, k - 1);
        let best = best_group(of, adj, k);
        if best is Some {
            if best == before {
                let part = k - 1;
                let i = choose|i: int| #[trigger]
                    is_first_best(of, adj, part, i) && of[adj[i].node as int] == Some(before->0.node)
                        && adj[i].strength == before->0.strength;
                assert(is_first_best(of, adj, k, i));
            } else {
                assert(is_first_best(of, adj, k, k - 1));
            }
        }
    }
}

/// Neighbour `i` counts, none is connected more strongly, and none before it as strongly.
pub open spec fn is_first_best(of: Seq<Option<usize>>, adj: Seq<Neighbour>, k: int, i: int) -> bool {
    &&& 0 <= i < k
    &&& eligible(of, adj[i])
    &&& forall|j: int| 0 <= j < k && eligible(of, #[trigger] adj[j]) ==> adj[j].strength <= adj[i].strength
    &&& forall|j: int| 0 <= j < i && eligible(of, #[trigger] adj[j]) ==> adj[j].strength < adj[i].strength
}

/// Joining a group puts every node of the list there, and no other.
pub proof fn every_node_of_a_list_joins(of: Seq<Option<usize>>, nodes: Seq<usize>, group: usize, k: int)
    requires
        0 <= k <= nodes.len(),
        forall|j: int| 0 <= j < nodes.len() ==> #[trigger] nodes[j] < of.len(),
    ensures
        joined(of, nodes, group, k).len() == of.len(),
        forall|j: int| 0 <= j < k ==> joined(of, nodes, group, k)[#[trigger] nodes[j] as int] == Some(group),
        forall|a: int|
            0 <= a < of.len() && (forall|j: int| 0 <= j < k ==> #[trigger] nodes[j] != a) ==> #[trigger] joined(
                of,
                nodes,
                group,
                k,
            )[a] == of[a],
        forall|a: int|
            0 <= a < of.len() ==> #[trigger] joined(of, nodes, group, k)[a] == of[a] || joined(of, nodes, group, k)[a]
                == Some(group),
    decreases k,
{
    if k > 0 {
        every_node_of_a_list_joins(of, nodes, group, k - 1);
        assert(nodes[k - 1] < of.len());
    }
}

/// The unknown is a seed: it and all its strong neighbours are in one group.
pub open spec fn is_seed(strong: Seq<Seq<usize>>, of: Seq<Option<usize>>, s: int, g: usize) -> bool {
    &&& 0 <= s < strong.len()
    &&& of[s] == Some(g)
    &&& forall|k: int| 0 <= k < strong[s].len() ==> of[#[trigger] strong[s][k] as int] == Some(g)
}

/// The unknown is the seed or one of its strong neighbours.
pub open spec fn around(strong: Seq<Seq<usize>>, s: int, a: int) -> bool {
    a == s || exists|k: int| 0 <= k < strong[s].len() && #[trigger] strong[s][k] == a
}

/// Some seed of the group is around the unknown.
pub open spec fn has_seed(strong: Seq<Seq<usize>>, of: Seq<Option<usize>>, a: int) -> bool {
    exists|s: int| #[trigger] is_seed(strong, of, s, of[a]->0) && around(strong, s, a)
}

/// The unknown or a strong neighbour of it has a group.
pub open spec fn touched(strong: Seq<Seq<usize>>, of: Seq<Option<usize>>, a: int) -> bool {
    of[a] is Some || exists|k: int| 0 <= k < strong[a].len() && of[#[trigger] strong[a][k] as int] is Some
}

/// Every group that is made first is that of a seed with all its strong neighbours, and groups are made
/// until no unknown is left that is free together with all its strong neighbours.
pub proof fn groups_form_around_seeds(strong: Seq<Seq<usize>>, i: int)
    requires
        0 <= i <= strong.len() <= usize::MAX,
        forall|a: int, k: int|
            0 <= a < strong.len() && 0 <= k < strong[a].len() ==> #[trigger] strong[a][k] < strong.len(),
    ensures
        ({
            let g = seeded_groups(strong, i);
            &&& g.of.len() == strong.len()
            &&& 0 <= g.count <= i
            &&& forall|a: int| 0 <= a < strong.len() && (#[trigger] g.of[a]) is Some ==> g.of[a]->0 < g.count
            &&& forall|a: int| 0 <= a < strong.len() && (#[trigger] g.of[a]) is Some ==> has_seed(strong, g.of, a)
            &&& forall|a: int| 0 <= a < i ==> #[trigger] touched(strong, g.of, a)
        }),
    decreases i,
{
    if i > 0 {
        groups_form_around_seeds(strong, i - 1);
        let old_g = seeded_groups(strong, i - 1);
        let g = seeded_groups(strong, i);
        let s = i - 1;
        let nodes = strong[s];
        assert forall|j: int| 0 <= j < nodes.len() implies #[trigger] nodes[j] < strong.len() by {
            assert(strong[s][j] < strong.len());
        }
        if old_g.of[s] is None && crate::solver::aggregate::all_free(old_g.of, nodes) {
            let group = old_g.count as usize;
            let first = old_g.of.update(s, Some(group));
            every_node_of_a_list_joins(first, nodes, group, nodes.len() as int);
            assert(g.of == joined(first, nodes, group, nodes.len() as int));
            assert(is_seed(strong, g.of, s, group));
            assert forall|a: int| 0 <= a < strong.len() && old_g.of[a] is Some implies #[trigger] g.of[a]
                == old_g.of[a] by {
                assert(a != s);
                assert forall|j: int| 0 <= j < nodes.len() implies #[trigger] nodes[j] != a by {
                    assert(old_g.of[nodes[j] as int] is None);
                }
            }
            assert forall|a: int| 0 <= a < strong.len() && (#[trigger] g.of[a]) is Some implies has_seed(
                strong,
                g.of,
                a,
            ) by {
                if old_g.of[a] is Some {
                    assert(has_seed(strong, old_g.of, a));
                    let t = choose|t: int| #[trigger]
                        is_seed(strong, old_g.of, t, old_g.of[a]->0) && around(strong, t, a);
                    assert forall|k: int| 0 <= k < strong[t].len() implies g.of[#[trigger] strong[t][k] as int] == Some(
                        g.of[a]->0,
                    ) by {
                        assert(old_g.of[strong[t][k] as int] is Some);
                        assert(strong[t][k] < strong.len());
                    }
                    assert(is_seed(strong, g.of, t, g.of[a]->0));
                } else {
                    assert(around(strong, s, a)) by {
                        if a != s && forall|j: int| 0 <= j < nodes.len() ==> #[trigger] nodes[j] != a {
                            assert(g.of[a] == first[a]);
                        }
                    }
                    assert(g.of[a] == Some(group));
                }
            }
            assert forall|a: int| 0 <= a < i implies #[trigger] touched(strong, g.of, a) by {
                if a < s {
                    assert(touched(strong, old_g.of, a));
                    if old_g.of[a] is None {
                        let k = choose|k: int|
                            0 <= k < strong[a].len() && old_g.of[#[trigger] strong[a][k] as int] is Some;
                        assert(strong[a][k] < strong.len());
                        assert(g.of[strong[a][k] as int] is Some);
                    }
                }
            }
        } else {
            if old_g.of[s] is None {
                let k = choose|k: int| 0 <= k < nodes.len() && old_g.of[#[trigger] nodes[k] as int] is Some;
                assert(g.of[strong[s][k] as int] is Some);
            }
            assert(touched(strong, g.of, s));
        }
    }
}

/// Completing the groups leaves every unknown with a group where it is; one without joins the group of
/// its strongest neighbour at that time, or gets a new one where it has no such neighbour.
pub proof fn completing_keeps_groups(start: Groups, adj: Seq<Seq<Neighbour>>, i: int)
    requires
        0 <= i <= adj.len(),
        start.of.len() == adj.len(),
    ensures
        ({
            let g = completed_groups(start, adj, i);
            &&& g.of.len() == adj.len()
            &&& forall|a: int| 0 <= a < adj.len() && (#[trigger] start.of[a]) is Some ==> g.of[a] == start.of[a]
            &&& forall|a: int| i <= a < adj.len() ==> #[trigger] g.of[a] == start.of[a]
            &&& forall|a: int| 0 <= a < i ==> (#[trigger] g.of[a]) is Some
        }),
        i > 0 && start.of[i - 1] is None ==> {
            let before = completed_groups(start, adj, i - 1);
            let g = completed_groups(start, adj, i);
            let list = adj[i - 1];
            &&& forall|j: int| #[trigger]
                is_first_best(before.of, list, list.len() as int, j) ==> g.of[i - 1] == before.of[list[j].node as int]
                    && g.count == before.count
            &&& (forall|j: int| 0 <= j < list.len() ==> !eligible(before.of, #[trigger] list[j])) ==> g.of[i - 1]
                == Some(before.count as usize) && g.count == before.count + 1
        },
    decreases i,
{
    if i > 0 {
        completing_keeps_groups(start, adj, i - 1);
        let before = completed_groups(start, adj, i - 1);
        let list = adj[i - 1];
        let n = list.len() as int;
        the_strongest_neighbour_counts(before.of, list, n);
        let best = best_group(before.of, list, n);
        if start.of[i - 1] is None {
            assert(before.of[i - 1] == start.of[i - 1]);
            assert forall|j: int| #[trigger] is_first_best(before.of, list, n, j) implies completed_groups(
                start,
                adj,
                i,
            ).of[i - 1] == before.of[list[j].node as int] && completed_groups(start, adj, i).count == before.count by {
                assert(eligible(before.of, list[j]));
                let k = choose|k: int| #[trigger]
                    is_first_best(before.of, list, n, k) && before.of[list[k].node as int] == Some(best->0.node)
                        && list[k].strength == best->0.strength;
                assert(k == j) by {
                    assert(eligible(before.of, list[k]));
                }
            }
        }
    }
}

} // verus!
