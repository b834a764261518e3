//! Plain-value descriptions of directed graphs: neighbor order over an edge
//! list (oldest edge first), neighbor lists per node (newest first), what
//! removing a node does to those lists, reachability along an edge relation,
//! and the orders a depth-first search may yield.

use vstd::prelude::*;

verus! {

/// Which way an edge is followed from a node.
#[derive(PartialEq, Eq, Structural, Clone, Copy, Debug)]
pub enum EdgeDirection {
    Outgoing,
    Incoming,
}

/// Targets of the edges from `a`, newest edge first.
pub open spec fn out_neighbors(edges: Seq<(nat, nat)>, a: nat) -> Seq<nat>
    decreases edges.len(),
{
    if edges.len() == 0 {
        Seq::empty()
    } else {
        let e = edges.last();
        let rest = out_neighbors(edges.drop_last(), a);
        if e.0 == a {
            seq![e.1] + rest
        } else {
            rest
        }
    }
}

/// Sources of the edges into `a`, newest edge first.
pub open spec fn in_neighbors(edges: Seq<(nat, nat)>, a: nat) -> Seq<nat>
    decreases edges.len(),
{
    if edges.len() == 0 {
        Seq::empty()
    } else {
        let e = edges.last();
        let rest = in_neighbors(edges.drop_last(), a);
        if e.1 == a {
            seq![e.0] + rest
        } else {
            rest
        }
    }
}

/// The neighbors of `a` in the given direction, newest edge first.
pub open spec fn neighbors(edges: Seq<(nat, nat)>, a: nat, direction: EdgeDirection) -> Seq<nat> {
    match direction {
        EdgeDirection::Outgoing => out_neighbors(edges, a),
        EdgeDirection::Incoming => in_neighbors(edges, a),
    }
}

/// Every edge runs between members of `nodes`.
pub open spec fn edges_within(nodes: Set<nat>, edges: Seq<(nat, nat)>) -> bool {
    forall|i: int| 0 <= i < edges.len() ==> nodes.contains(#[trigger] edges[i].0) && nodes.contains(edges[i].1)
}

/// No two edges end at the same node.
pub open spec fn targets_distinct(edges: Seq<(nat, nat)>) -> bool {
    forall|i: int, j: int| 0 <= i < j < edges.len() ==> #[trigger] edges[i].1 != #[trigger] edges[j].1
}

/// The list of `lists` at `n`, empty where it has none.
pub open spec fn list_at(lists: Map<nat, Seq<nat>>, n: nat) -> Seq<nat> {
    if lists.contains_key(n) {
        lists[n]
    } else {
        Seq::empty()
    }
}

/// Whether a node is other than `a`.
pub open spec fn other_than(a: nat) -> spec_fn(nat) -> bool {
    |x: nat| x != a
}

/// The neighbor lists after node `a` is removed: no list for `a`, and `a`
/// taken out of every other list, the rest in order.
pub open spec fn lists_without(lists: Map<nat, Seq<nat>>, a: nat) -> Map<nat, Seq<nat>> {
    Map::new(|k: nat| lists.contains_key(k) && k != a, |k: nat| lists[k].filter(other_than(a)))
}

/// The edge relation of neighbor lists: `b` is on the list of `a`.
pub open spec fn list_edge(lists: Map<nat, Seq<nat>>) -> spec_fn(nat, nat) -> bool {
    |a: nat, b: nat| lists.contains_key(a) && lists[a].contains(b)
}

/// The edge relation of an edge list.
pub open spec fn seq_edge(edges: Seq<(nat, nat)>) -> spec_fn(nat, nat) -> bool {
    |a: nat, b: nat| edges.contains((a, b))
}

/// `path` is a nonempty walk along `edge`.
pub open spec fn is_path(edge: spec_fn(nat, nat) -> bool, path: Seq<nat>) -> bool {
    &&& path.len() > 0
    &&& forall|i: int| 0 <= i < path.len() - 1 ==> edge(#[trigger] path[i], path[i + 1])
}

/// `b` can be reached from `a` along `edge` (every node reaches itself).
pub open spec fn reaches(edge: spec_fn(nat, nat) -> bool, a: nat, b: nat) -> bool {
    exists|path: Seq<nat>| #[trigger] is_path(edge, path) && path[0] == a && path.last() == b
}

/// What a depth-first search from the live node `start` along `edge` yields:
/// every node reachable from `start`, nothing else, no node twice; in
/// preorder (`start_first`) `start` comes first and every other node after
/// some node with an edge to it; in postorder `start` comes last and every
/// other node before some node with an edge to it.
pub open spec fn search_order(order: Seq<nat>, edge: spec_fn(nat, nat) -> bool, start: nat, start_first: bool) -> bool {
    &&& order.no_duplicates()
    &&& order.len() > 0
    &&& (if start_first { order[0] == start } else { order.last() == start })
    &&& forall|n: nat| order.contains(n) <==> reaches(edge, start, n)
    &&& start_first ==> forall|i: int| 0 < i < order.len() ==>
        exists|j: int| 0 <= j < i && edge(order[j], #[trigger] order[i])
    &&& !start_first ==> forall|i: int| 0 <= i < order.len() - 1 ==>
        exists|j: int| i < j < order.len() && edge(order[j], #[trigger] order[i])
}

/// Filtering keeps a sequence free of duplicates.
pub proof fn lemma_filter_no_duplicates(s: Seq<nat>, p: spec_fn(nat) -> bool)
    requires
        s.no_duplicates(),
    ensures
        s.filter(p).no_duplicates(),
    decreases s.len(),
{
    reveal(Seq::filter);
    if s.len() > 0 {
        let rest = s.drop_last();
        assert(rest.no_duplicates()) by {
            assert forall|i: int, j: int| 0 <= i < rest.len() && 0 <= j < rest.len() && i != j implies rest[i] != rest[j] by {
                assert(rest[i] == s[i] && rest[j] == s[j]);
            }
        }
        lemma_filter_no_duplicates(rest, p);
        if p(s.last()) {
            let f = rest.filter(p);
            assert(!f.contains(s.last())) by {
                if f.contains(s.last()) {
                    rest.lemma_filter_contains_rev(p, s.last());
                    let k = choose|k: int| 0 <= k < rest.len() && rest[k] == s.last();
                    assert(s[k] == s[s.len() - 1]);
                }
            }
            let g = f.push(s.last());
            assert forall|i: int, j: int| 0 <= i < g.len() && 0 <= j < g.len() && i != j implies g[i] != g[j] by {
                if i < f.len() && j < f.len() {
                } else if i < f.len() {
                    assert(f.contains(g[i]));
                } else {
                    assert(f.contains(g[j]));
                }
            }
        }
    }
}

/// Filtering out a value the sequence does not hold changes nothing.
pub proof fn lemma_filter_absent(s: Seq<nat>, a: nat)
    requires
        !s.contains(a),
    ensures
        s.filter(other_than(a)) == s,
    decreases s.len(),
{
    reveal(Seq::filter);
    if s.len() > 0 {
        let rest = s.drop_last();
        assert(!rest.contains(a)) by {
            if rest.contains(a) {
                let k = choose|k: int| 0 <= k < rest.len() && rest[k] == a;
                assert(s[k] == a);
            }
        }
        lemma_filter_absent(rest, a);
        assert(s[s.len() - 1] != a);
        assert(rest.push(s.last()) =~= s);
    }
}

/// What a filtered sequence holds: the members that pass.
pub proof fn lemma_filter_contains_iff(s: Seq<nat>, p: spec_fn(nat) -> bool, x: nat)
    ensures
        s.filter(p).contains(x) <==> s.contains(x) && p(x),
{
    if s.filter(p).contains(x) {
        s.lemma_filter_contains_rev(p, x);
        let i = choose|i: int| 0 <= i < s.filter(p).len() && s.filter(p)[i] == x;
        s.lemma_filter_pred(p, i);
    }
    if s.contains(x) && p(x) {
        let i = choose|i: int| 0 <= i < s.len() && s[i] == x;
        s.lemma_filter_contains(p, i);
    }
}

/// Every neighbor of a node is a member of `nodes` when every edge runs
/// between members; a node outside `nodes` has no neighbors.
pub proof fn lemma_no_neighbors_outside(nodes: Set<nat>, edges: Seq<(nat, nat)>, a: nat)
    requires
        edges_within(nodes, edges),
    ensures
        forall|i: int| 0 <= i < out_neighbors(edges, a).len() ==> nodes.contains(#[trigger] out_neighbors(edges, a)[i]),
        forall|i: int| 0 <= i < in_neighbors(edges, a).len() ==> nodes.contains(#[trigger] in_neighbors(edges, a)[i]),
        !nodes.contains(a) ==> out_neighbors(edges, a).len() == 0 && in_neighbors(edges, a).len() == 0,
    decreases edges.len(),
{
    if edges.len() > 0 {
        let rest = edges.drop_last();
        assert(edges_within(nodes, rest)) by {
            assert forall|i: int| 0 <= i < rest.len() implies nodes.contains(#[trigger] rest[i].0) && nodes.contains(rest[i].1) by {
                assert(rest[i] == edges[i]);
            }
        }
        lemma_no_neighbors_outside(nodes, rest, a);
        assert(nodes.contains(edges[edges.len() - 1].0));
        let out = out_neighbors(edges, a);
        let inn = in_neighbors(edges, a);
        assert forall|i: int| 0 <= i < out.len() implies nodes.contains(#[trigger] out[i]) by {
            if edges.last().0 == a && i > 0 {
                assert(out[i] == out_neighbors(rest, a)[i - 1]);
            }
        }
        assert forall|i: int| 0 <= i < inn.len() implies nodes.contains(#[trigger] inn[i]) by {
            if edges.last().1 == a && i > 0 {
                assert(inn[i] == in_neighbors(rest, a)[i - 1]);
            }
        }
    }
}

/// In a graph whose edges run between members of `nodes`, whatever a member
/// reaches is a member.
pub proof fn lemma_reached_within(nodes: Set<nat>, edges: Seq<(nat, nat)>, a: nat, b: nat)
    requires
        edges_within(nodes, edges),
        nodes.contains(a),
        reaches(seq_edge(edges), a, b),
    ensures
        nodes.contains(b),
{
    let path = choose|path: Seq<nat>| #[trigger] is_path(seq_edge(edges), path) && path[0] == a && path.last() == b;
    if path.len() > 1 {
        let i = path.len() - 2;
        assert(seq_edge(edges)(path[i], path[i + 1]));
        assert(edges.contains((path[i], path[i + 1])));
        let j = choose|j: int| 0 <= j < edges.len() && edges[j] == (path[i], path[i + 1]);
        assert(nodes.contains(edges[j].0));
        assert(nodes.contains(edges[j].1));
    }
}

/// Each neighbor on a list comes from an edge of the list.
pub proof fn lemma_out_neighbor_edge(edges: Seq<(nat, nat)>, a: nat, i: int)
    requires
        0 <= i < out_neighbors(edges, a).len(),
    ensures
        exists|j: int| 0 <= j < edges.len() && edges[j] == (a, #[trigger] out_neighbors(edges, a)[i]),
    decreases edges.len(),
{
    let rest = edges.drop_last();
    let last = edges.len() - 1;
    if edges.last().0 == a && i == 0 {
        assert(edges[last] == (a, out_neighbors(edges, a)[i]));
    } else {
        let k = if edges.last().0 == a { i - 1 } else { i };
        lemma_out_neighbor_edge(rest, a, k);
        let j = choose|j: int| 0 <= j < rest.len() && rest[j] == (a, #[trigger] out_neighbors(rest, a)[k]);
        assert(edges[j] == rest[j]);
    }
}

/// When no two edges end at the same node, a node's children come once
/// each and it has at most one parent.
pub proof fn lemma_distinct_targets(edges: Seq<(nat, nat)>, a: nat)
    requires
        targets_distinct(edges),
    ensures
        out_neighbors(edges, a).no_duplicates(),
        in_neighbors(edges, a).len() <= 1,
    decreases edges.len(),
{
    if edges.len() > 0 {
        let rest = edges.drop_last();
        let last = edges.len() - 1;
        assert(targets_distinct(rest)) by {
            assert forall|i: int, j: int| 0 <= i < j < rest.len() implies #[trigger] rest[i].1 != #[trigger] rest[j].1 by {
                assert(rest[i] == edges[i] && rest[j] == edges[j]);
            }
        }
        lemma_distinct_targets(rest, a);
        let e = edges[last];
        assert(e == edges.last());
        let rest_out = out_neighbors(rest, a);
        if e.0 == a {
            assert(!rest_out.contains(e.1)) by {
                if rest_out.contains(e.1) {
                    let i = choose|i: int| 0 <= i < rest_out.len() && rest_out[i] == e.1;
                    lemma_out_neighbor_edge(rest, a, i);
                    let j = choose|j: int| 0 <= j < rest.len() && rest[j] == (a, #[trigger] rest_out[i]);
                    assert(edges[j].1 == edges[last].1);
                }
            }
            let o = out_neighbors(edges, a);
            assert(o == seq![e.1] + rest_out);
            assert forall|i: int, j: int| 0 <= i < o.len() && 0 <= j < o.len() && i != j implies o[i] != o[j] by {
                if i > 0 && j > 0 {
                    assert(o[i] == rest_out[i - 1] && o[j] == rest_out[j - 1]);
                } else if i == 0 {
                    assert(o[j] == rest_out[j - 1]);
                } else {
                    assert(o[i] == rest_out[i - 1]);
                }
            }
        }
        if e.1 == a {
            assert(in_neighbors(rest, a).len() == 0) by {
                if in_neighbors(rest, a).len() > 0 {
                    lemma_in_neighbor_edge(rest, a, 0);
                    let j = choose|j: int| 0 <= j < rest.len() && rest[j] == (#[trigger] in_neighbors(rest, a)[0], a);
                    assert(edges[j].1 == edges[last].1);
                }
            }
        }
    }
}

/// Each neighbor on an incoming list comes from an edge of the list.
pub proof fn lemma_in_neighbor_edge(edges: Seq<(nat, nat)>, a: nat, i: int)
    requires
        0 <= i < in_neighbors(edges, a).len(),
    ensures
        exists|j: int| 0 <= j < edges.len() && edges[j] == (#[trigger] in_neighbors(edges, a)[i], a),
    decreases edges.len(),
{
    let rest = edges.drop_last();
    let last = edges.len() - 1;
    if edges.last().1 == a && i == 0 {
        assert(edges[last] == (in_neighbors(edges, a)[i], a));
    } else {
        let k = if edges.last().1 == a { i - 1 } else { i };
        lemma_in_neighbor_edge(rest, a, k);
        let j = choose|j: int| 0 <= j < rest.len() && rest[j] == (#[trigger] in_neighbors(rest, a)[k], a);
        assert(edges[j] == rest[j]);
    }
}

} // verus!
