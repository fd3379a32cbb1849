//! The leaf-first ordering itself: a depth-first post-order traversal of
//! the resolved graph, seeded from every in-scope package whose name is
//! not a development-only dependency, with one visited set shared across
//! all roots.

use vstd::prelude::*;
use crate::graph::DependencyGraph;
use crate::graph::GraphNode;
use crate::graph::PackageRecord;
use crate::graph::OrderedDependency;
use crate::graph::DeclaredDependency;
use crate::graph::contains_str;
use crate::graph::distinct_strs;
use crate::graph::has_node;
use crate::graph::node_index;
use crate::graph::distinct_node_ids;
use crate::graph::distinct_package_ids;
use crate::graph::edge;
use crate::graph::wf_graph;
use crate::graph::scope_strs;
use crate::graph::lemma_node_index_of;
use crate::graph::lemma_contains_str_prefix;
use crate::graph::lemma_prefix_trans;
use crate::graph::lemma_prefix_push;
use crate::graph::lemma_contains_str_push;
use crate::graph::lemma_distinct_in_scope_len;
use crate::graph::string_in;
use crate::graph::find_node;

verus! {

/// `rank` witnesses that the graph is acyclic: it gives every node a rank
/// that strictly exceeds the rank of each of its resolvable dependencies.
pub open spec fn ranked(nodes: Seq<GraphNode>, rank: Seq<int>) -> bool {
    &&& rank.len() == nodes.len()
    &&& forall|i: int, e: int| #![trigger nodes[i].deps@[e]]
        0 <= i < nodes.len() && 0 <= e < nodes[i].deps@.len() && has_node(
            nodes,
            nodes[i].deps@[e]@,
        ) ==> rank[node_index(nodes, nodes[i].deps@[e]@)] < rank[i]
}

/// The graph is a directed acyclic graph: some ranking witnesses it.
pub open spec fn is_dag(nodes: Seq<GraphNode>) -> bool {
    exists|rank: Seq<int>| ranked(nodes, rank)
}

/// Leaf-first: every in-scope, resolvable dependency of an emitted
/// identifier is emitted strictly before it.
pub open spec fn deps_before(nodes: Seq<GraphNode>, scope: Seq<String>, out: Seq<String>) -> bool {
    forall|k: int, d: Seq<char>|
        0 <= k < out.len() && #[trigger] edge(nodes, out[k]@, d) && has_node(nodes, d)
            && contains_str(scope, d) ==> exists|m: int| 0 <= m < k && out[m]@ == d
}

/// Every emitted identifier is in scope and has a node.
pub open spec fn all_in_scope(nodes: Seq<GraphNode>, scope: Seq<String>, out: Seq<String>) -> bool {
    forall|k: int| #![trigger out[k]]
        0 <= k < out.len() ==> contains_str(scope, out[k]@) && has_node(nodes, out[k]@)
}

/// Every in-scope package whose name is not a development-only dependency
/// and whose identifier has a node is emitted.
pub open spec fn roots_included(
    nodes: Seq<GraphNode>,
    packages: Seq<PackageRecord>,
    scope: Seq<String>,
    dev: Seq<String>,
    out: Seq<String>,
) -> bool {
    forall|p: int| #![trigger packages[p]]
        0 <= p < packages.len() && contains_str(scope, packages[p].id@) && !contains_str(
            dev,
            packages[p].name@,
        ) && has_node(nodes, packages[p].id@) ==> contains_str(out, packages[p].id@)
}

/// A package whose name is a development-only dependency is never a root:
/// when it is emitted at all, some emitted identifier depends on it.
pub open spec fn dev_only_via_edge(
    nodes: Seq<GraphNode>,
    packages: Seq<PackageRecord>,
    dev: Seq<String>,
    out: Seq<String>,
) -> bool {
    forall|k: int, p: int| #![trigger out[k], packages[p]]
        0 <= k < out.len() && 0 <= p < packages.len() && packages[p].id@ == out[k]@
            && contains_str(dev, packages[p].name@) ==> exists|m: int|
            0 <= m < out.len() && edge(nodes, out[m]@, out[k]@)
}

/// What the ordering guarantees of its result: the emitted identifiers are
/// pairwise distinct, all in scope and resolvable to nodes, leaf-first,
/// they include every admissible root, and a development-only name is
/// emitted only as someone's dependency.
pub open spec fn valid_ordering(
    g: DependencyGraph,
    dev: Seq<String>,
    workspace_only: bool,
    out: Seq<String>,
) -> bool {
    &&& distinct_strs(out)
    &&& all_in_scope(g.nodes@, scope_strs(g, workspace_only), out)
    &&& deps_before(g.nodes@, scope_strs(g, workspace_only), out)
    &&& roots_included(g.nodes@, g.packages@, scope_strs(g, workspace_only), dev, out)
    &&& dev_only_via_edge(g.nodes@, g.packages@, dev, out)
}

/// One visit of the traversal, mirrored as a function on the pair
/// `(visited, emitted)`: skip a node already visited or out of scope,
/// otherwise mark it, visit its resolvable dependencies in edge order,
/// and emit it last.  `fuel` bounds the recursion depth; every run is
/// handed more fuel than the depth can reach, so the bound never bites.
pub open spec fn visit_spec(
    nodes: Seq<GraphNode>,
    scope: Seq<String>,
    ni: int,
    st: (Seq<String>, Seq<String>),
    fuel: nat,
) -> (Seq<String>, Seq<String>)
    decreases fuel, 0int, 0int,
{
    if fuel == 0 {
        st
    } else if contains_str(st.0, nodes[ni].id@) {
        st
    } else if !contains_str(scope, nodes[ni].id@) {
        st
    } else {
        let st1 = (st.0.push(nodes[ni].id), st.1);
        let st2 = visit_deps_spec(
            nodes,
            scope,
            ni,
            nodes[ni].deps@.len() as int,
            st1,
            (fuel - 1) as nat,
        );
        (st2.0, st2.1.push(nodes[ni].id))
    }
}

/// The visits of the first `e` dependency edges of the node at `ni`, in
/// edge order; an edge whose target has no node is skipped.
pub open spec fn visit_deps_spec(
    nodes: Seq<GraphNode>,
    scope: Seq<String>,
    ni: int,
    e: int,
    st: (Seq<String>, Seq<String>),
    fuel: nat,
) -> (Seq<String>, Seq<String>)
    decreases fuel, 1int, e,
{
    if e <= 0 {
        st
    } else {
        let st1 = visit_deps_spec(nodes, scope, ni, e - 1, st, fuel);
        let d = nodes[ni].deps@[e - 1]@;
        if has_node(nodes, d) {
            visit_spec(nodes, scope, node_index(nodes, d), st1, fuel)
        } else {
            st1
        }
    }
}

/// One root step: the package at `pi` seeds a depth-first visit when it
/// is in scope, its name is not a development-only dependency, and its
/// identifier has a node.
pub open spec fn root_step(
    g: DependencyGraph,
    scope: Seq<String>,
    dev: Seq<String>,
    pi: int,
    st: (Seq<String>, Seq<String>),
) -> (Seq<String>, Seq<String>) {
    let p = g.packages@[pi];
    if contains_str(scope, p.id@) && !contains_str(dev, p.name@) && has_node(g.nodes@, p.id@) {
        visit_spec(g.nodes@, scope, node_index(g.nodes@, p.id@), st, (scope.len() + 1) as nat)
    } else {
        st
    }
}

/// The traversal state after the first `k` packages were offered as
/// roots, starting from nothing visited and nothing emitted.
pub open spec fn order_upto(
    g: DependencyGraph,
    scope: Seq<String>,
    dev: Seq<String>,
    k: int,
) -> (Seq<String>, Seq<String>)
    decreases k,
{
    if k <= 0 {
        (Seq::empty(), Seq::empty())
    } else {
        root_step(g, scope, dev, k - 1, order_upto(g, scope, dev, k - 1))
    }
}

/// The whole ordering as a function of its inputs alone: the identifiers
/// that the traversal emits, in emission order.
pub open spec fn order_spec(g: DependencyGraph, dev: Seq<String>, workspace_only: bool) -> Seq<
    String,
> {
    order_upto(g, scope_strs(g, workspace_only), dev, g.packages@.len() as int).1
}

/// The state shared across the whole traversal.  `visited` holds every
/// identifier ever marked; `out` the identifiers already emitted; the ghost
/// `active` the identifiers currently on the recursion path, which are
/// marked but not yet emitted.
pub open spec fn dfs_inv(
    nodes: Seq<GraphNode>,
    scope: Seq<String>,
    visited: Seq<String>,
    out: Seq<String>,
    active: Seq<Seq<char>>,
) -> bool {
    &&& distinct_strs(visited)
    &&& distinct_strs(out)
    &&& active.no_duplicates()
    &&& forall|i: int| #![trigger visited[i]]
        0 <= i < visited.len() ==> contains_str(scope, visited[i]@) && has_node(
            nodes,
            visited[i]@,
        ) && (contains_str(out, visited[i]@) || active.contains(visited[i]@))
    &&& forall|i: int| #![trigger active[i]]
        0 <= i < active.len() ==> has_node(nodes, active[i]) && contains_str(visited, active[i])
    &&& forall|i: int| #![trigger out[i]]
        0 <= i < out.len() ==> contains_str(visited, out[i]@) && !active.contains(out[i]@)
    &&& deps_before(nodes, scope, out)
}

/// One depth-first visit: skip an identifier already marked or out of
/// scope; otherwise mark it, visit its resolvable dependencies in edge
/// order, and emit it after all of them.
#[verifier::loop_isolation(false)]
fn visit_dep(
    nodes: &Vec<GraphNode>,
    scope: &Vec<String>,
    node_i: usize,
    visited: Vec<String>,
    out: Vec<String>,
    Ghost(active): Ghost<Seq<Seq<char>>>,
    Ghost(rank): Ghost<Seq<int>>,
    Ghost(fuel): Ghost<nat>,
) -> (res: (Vec<String>, Vec<String>))
    requires
        distinct_node_ids(nodes@),
        ranked(nodes@, rank),
        node_i < nodes@.len(),
        dfs_inv(nodes@, scope@, visited@, out@, active),
        forall|i: int| #![trigger active[i]]
            0 <= i < active.len() ==> rank[node_index(nodes@, active[i])] > rank[node_i as int],
        fuel as int >= scope@.len() - visited@.len() + 1,
    ensures
        (res.0@, res.1@) == visit_spec(nodes@, scope@, node_i as int, (visited@, out@), fuel),
        dfs_inv(nodes@, scope@, res.0@, res.1@, active),
        visited@.is_prefix_of(res.0@),
        out@.is_prefix_of(res.1@),
        contains_str(scope@, nodes@[node_i as int].id@) ==> contains_str(
            res.1@,
            nodes@[node_i as int].id@,
        ),
        forall|x: Seq<char>|
            contains_str(res.0@, x) && !contains_str(visited@, x) && x != nodes@[node_i
                as int].id@ ==> exists|y: Seq<char>| contains_str(res.0@, y) && edge(nodes@, y, x),
    decreases scope@.len() - visited@.len(),
{
    let my_id = nodes[node_i].id.clone();
    let ghost my_view = nodes@[node_i as int].id@;
    proof {
        lemma_node_index_of(nodes@, node_i as int);
        if active.contains(my_view) {
            let ai = choose|i: int| 0 <= i < active.len() && active[i] == my_view;
            assert(rank[node_index(nodes@, active[ai])] > rank[node_i as int]);
            assert(false);
        }
    }
    let mut visited = visited;
    let mut out = out;
    if string_in(&visited, &my_id) {
        proof {
            let vi = choose|i: int| 0 <= i < visited@.len() && visited@[i]@ == my_view;
            assert(contains_str(out@, visited@[vi]@) || active.contains(visited@[vi]@));
            lemma_distinct_in_scope_len(visited@, scope@);
            assert(visit_spec(nodes@, scope@, node_i as int, (visited@, out@), fuel) == (
                visited@,
                out@,
            ));
        }
        return (visited, out);
    }
    if !string_in(scope, &my_id) {
        proof {
            lemma_distinct_in_scope_len(visited@, scope@);
            assert(visit_spec(nodes@, scope@, node_i as int, (visited@, out@), fuel) == (
                visited@,
                out@,
            ));
        }
        return (visited, out);
    }
    let ghost pre_visited = visited@;
    let ghost pre_out = out@;
    visited.push(my_id.clone());
    let ghost active2 = active.push(my_view);
    proof {
        assert forall|i: int| 0 <= i < visited@.len() implies contains_str(
            scope@,
            #[trigger] visited@[i]@,
        ) && has_node(nodes@, visited@[i]@) && (contains_str(out@, visited@[i]@)
            || active2.contains(visited@[i]@)) by {
            if i < pre_visited.len() {
                assert(visited@[i] == pre_visited[i]);
                if active.contains(pre_visited[i]@) {
                    let ai = choose|a: int| 0 <= a < active.len() && active[a] == pre_visited[i]@;
                    assert(active2[ai] == pre_visited[i]@);
                }
            } else {
                assert(visited@[i]@ == my_view);
                assert(active2[active.len() as int] == my_view);
            }
        }
        assert forall|i: int| 0 <= i < active2.len() implies has_node(
            nodes@,
            #[trigger] active2[i],
        ) && contains_str(visited@, active2[i]) by {
            if i < active.len() {
                assert(active2[i] == active[i]);
                lemma_contains_str_prefix(pre_visited, visited@, active[i]);
            } else {
                assert(visited@[pre_visited.len() as int]@ == my_view);
            }
        }
        assert forall|i: int| 0 <= i < out@.len() implies contains_str(
            visited@,
            #[trigger] out@[i]@,
        ) && !active2.contains(out@[i]@) by {
            lemma_contains_str_prefix(pre_visited, visited@, out@[i]@);
            assert(contains_str(pre_visited, out@[i]@));
            if out@[i]@ == my_view {
                assert(false);
            }
            if active2.contains(out@[i]@) {
                let ai = choose|a: int| 0 <= a < active2.len() && active2[a] == out@[i]@;
                assert(active[ai] == out@[i]@);
            }
        }
        assert(active2.no_duplicates()) by {
            assert forall|i: int, j: int|
                0 <= i < active2.len() && 0 <= j < active2.len() && i != j implies active2[i]
                != active2[j] by {
                if i < active.len() && j < active.len() {
                    assert(active[i] != active[j]);
                } else if i < active.len() {
                    assert(active2[j] == my_view);
                    assert(active.contains(active[i]) == true);
                } else {
                    assert(active2[i] == my_view);
                    assert(active.contains(active[j]) == true);
                }
            }
        }
        assert(dfs_inv(nodes@, scope@, visited@, out@, active2));
        assert(pre_visited.is_prefix_of(visited@)) by {
            assert(pre_visited =~= visited@.subrange(0, pre_visited.len() as int));
        }
        assert(contains_str(visited@, my_view)) by {
            assert(visited@[pre_visited.len() as int]@ == my_view);
        }
        assert forall|i: int| 0 <= i < active2.len() implies rank[node_index(
            nodes@,
            #[trigger] active2[i],
        )] >= rank[node_i as int] by {
            if i < active.len() {
                assert(active2[i] == active[i]);
            } else {
                assert(active2[i] == my_view);
            }
        }
    }
    let ghost st1 = (pre_visited.push(nodes@[node_i as int].id), pre_out);
    proof {
        assert(visited@ =~= st1.0);
        lemma_distinct_in_scope_len(pre_visited, scope@);
    }
    let deps_n = nodes[node_i].deps.len();
    let mut e: usize = 0;
    while e < deps_n
        invariant
            distinct_node_ids(nodes@),
            ranked(nodes@, rank),
            node_i < nodes@.len(),
            my_view == nodes@[node_i as int].id@,
            node_index(nodes@, my_view) == node_i as int,
            deps_n == nodes@[node_i as int].deps@.len(),
            0 <= e <= deps_n,
            active2 == active.push(my_view),
            dfs_inv(nodes@, scope@, visited@, out@, active2),
            forall|i: int| #![trigger active2[i]]
                0 <= i < active2.len() ==> rank[node_index(nodes@, active2[i])] >= rank[node_i
                    as int],
            pre_visited.is_prefix_of(visited@),
            pre_out.is_prefix_of(out@),
            visited@.len() >= pre_visited.len() + 1,
            contains_str(visited@, my_view),
            forall|e2: int|
                0 <= e2 < e && has_node(nodes@, #[trigger] nodes@[node_i as int].deps@[e2]@)
                    && contains_str(scope@, nodes@[node_i as int].deps@[e2]@) ==> contains_str(
                    out@,
                    nodes@[node_i as int].deps@[e2]@,
                ),
            forall|x: Seq<char>|
                contains_str(visited@, x) && !contains_str(pre_visited, x) && x != my_view
                    ==> exists|y: Seq<char>| contains_str(visited@, y) && edge(nodes@, y, x),
            (visited@, out@) == visit_deps_spec(
                nodes@,
                scope@,
                node_i as int,
                e as int,
                st1,
                (fuel - 1) as nat,
            ),
        decreases deps_n - e,
    {
        let dep_id = nodes[node_i].deps[e].clone();
        let ghost dep_view = nodes@[node_i as int].deps@[e as int]@;
        match find_node(nodes, &dep_id) {
            Some(ci) => {
                proof {
                    lemma_node_index_of(nodes@, ci as int);
                    assert(has_node(nodes@, dep_view));
                    assert(rank[node_index(nodes@, dep_view)] < rank[node_i as int]);
                    assert(node_index(nodes@, dep_view) == ci as int);
                    assert forall|i: int| 0 <= i < active2.len() implies rank[node_index(
                        nodes@,
                        #[trigger] active2[i],
                    )] > rank[ci as int] by {}
                    lemma_distinct_in_scope_len(visited@, scope@);
                    assert(visited@.len() <= scope@.len());
                    assert(visited@.len() >= pre_visited.len() + 1);
                }
                let ghost mid_visited = visited@;
                let ghost mid_out = out@;
                let r2 = visit_dep(
                    nodes,
                    scope,
                    ci,
                    visited,
                    out,
                    Ghost(active2),
                    Ghost(rank),
                    Ghost((fuel - 1) as nat),
                );
                visited = r2.0;
                out = r2.1;
                proof {
                    lemma_prefix_trans(pre_visited, mid_visited, visited@);
                    lemma_prefix_trans(pre_out, mid_out, out@);
                    lemma_contains_str_prefix(mid_visited, visited@, my_view);
                    assert forall|e2: int|
                        0 <= e2 < e + 1 && has_node(
                            nodes@,
                            #[trigger] nodes@[node_i as int].deps@[e2]@,
                        ) && contains_str(scope@, nodes@[node_i as int].deps@[e2]@)
                        implies contains_str(out@, nodes@[node_i as int].deps@[e2]@) by {
                        if e2 < e {
                            lemma_contains_str_prefix(
                                mid_out,
                                out@,
                                nodes@[node_i as int].deps@[e2]@,
                            );
                        } else {
                            assert(nodes@[ci as int].id@ == dep_view);
                        }
                    }
                    assert forall|x: Seq<char>|
                        contains_str(visited@, x) && !contains_str(pre_visited, x) && x != my_view
                        implies exists|y: Seq<char>|
                        contains_str(visited@, y) && edge(nodes@, y, x) by {
                        if contains_str(mid_visited, x) {
                            let y = choose|y: Seq<char>|
                                contains_str(mid_visited, y) && edge(nodes@, y, x);
                            lemma_contains_str_prefix(mid_visited, visited@, y);
                        } else if x == dep_view {
                            assert(edge(nodes@, my_view, dep_view)) by {
                                assert(nodes@[node_index(nodes@, my_view)].deps@[e as int]@
                                    == dep_view);
                            }
                        }
                    }
                    assert((visited@, out@) == visit_deps_spec(
                        nodes@,
                        scope@,
                        node_i as int,
                        e + 1,
                        st1,
                        (fuel - 1) as nat,
                    )) by {
                        assert(nodes@[node_i as int].deps@[e as int]@ == dep_view);
                        assert(has_node(nodes@, dep_view));
                        assert(node_index(nodes@, dep_view) == ci as int);
                        assert(visit_deps_spec(
                            nodes@,
                            scope@,
                            node_i as int,
                            e as int,
                            st1,
                            (fuel - 1) as nat,
                        ) == (mid_visited, mid_out));
                    }
                }
            },
            None => {
                proof {
                    assert((visited@, out@) == visit_deps_spec(
                        nodes@,
                        scope@,
                        node_i as int,
                        e + 1,
                        st1,
                        (fuel - 1) as nat,
                    )) by {
                        assert(nodes@[node_i as int].deps@[e as int]@ == dep_view);
                        assert(!has_node(nodes@, dep_view));
                    }
                }
            },
        }
        e += 1;
    }
    let ghost fin_visited = visited@;
    let ghost fin_out = out@;
    out.push(my_id);
    proof {
        assert(out@ == fin_out.push(nodes@[node_i as int].id));
        assert(out@[fin_out.len() as int]@ == my_view);
        // the freshly emitted identifier was never emitted before
        assert forall|i: int| 0 <= i < fin_out.len() implies fin_out[i]@ != my_view by {
            if fin_out[i]@ == my_view {
                assert(active2.contains(fin_out[i]@)) by {
                    assert(active2[active.len() as int] == my_view);
                }
            }
        }
        assert(distinct_strs(out@)) by {
            assert forall|i: int, j: int| #![trigger out@[i], out@[j]]
                0 <= i < j < out@.len() implies out@[i]@ != out@[j]@ by {
                if j < fin_out.len() {
                    assert(fin_out[i]@ != fin_out[j]@);
                }
            }
        }
        assert forall|i: int| 0 <= i < out@.len() implies contains_str(
            fin_visited,
            #[trigger] out@[i]@,
        ) && !active.contains(out@[i]@) by {
            if i < fin_out.len() {
                assert(contains_str(fin_visited, fin_out[i]@));
                if active.contains(fin_out[i]@) {
                    let ai = choose|a: int| 0 <= a < active.len() && active[a] == fin_out[i]@;
                    assert(active2[ai] == fin_out[i]@);
                }
            } else {
                assert(out@[i]@ == my_view);
                if active.contains(my_view) {
                    let ai = choose|a: int| 0 <= a < active.len() && active[a] == my_view;
                    assert(rank[node_index(nodes@, active[ai])] > rank[node_i as int]);
                }
            }
        }
        assert forall|i: int| 0 <= i < fin_visited.len() implies contains_str(
            out@,
            #[trigger] fin_visited[i]@,
        ) || active.contains(fin_visited[i]@) by {
            assert(contains_str(fin_out, fin_visited[i]@) || active2.contains(fin_visited[i]@));
            if contains_str(fin_out, fin_visited[i]@) {
                lemma_contains_str_prefix(fin_out, out@, fin_visited[i]@);
            } else {
                let ai = choose|a: int|
                    0 <= a < active2.len() && active2[a] == fin_visited[i]@;
                if ai < active.len() {
                    assert(active[ai] == fin_visited[i]@);
                } else {
                    assert(fin_visited[i]@ == my_view);
                    assert(out@[fin_out.len() as int]@ == my_view);
                }
            }
        }
        assert(deps_before(nodes@, scope@, out@)) by {
            assert forall|k: int, d: Seq<char>|
                0 <= k < out@.len() && #[trigger] edge(nodes@, out@[k]@, d) && has_node(nodes@, d)
                    && contains_str(scope@, d) implies exists|m: int|
                0 <= m < k && out@[m]@ == d by {
                if k < fin_out.len() {
                    assert(edge(nodes@, fin_out[k]@, d));
                    let m = choose|m: int| 0 <= m < k && fin_out[m]@ == d;
                    assert(out@[m]@ == d);
                } else {
                    // the deps of the node just emitted were all emitted in the loop
                    assert(out@[k]@ == my_view);
                    let e2 = choose|e2: int|
                        0 <= e2 < nodes@[node_index(nodes@, my_view)].deps@.len() && nodes@[
                            node_index(nodes@, my_view)].deps@[e2]@ == d;
                    assert(contains_str(fin_out, d));
                    let m = choose|m: int| 0 <= m < fin_out.len() && fin_out[m]@ == d;
                    assert(out@[m]@ == d);
                }
            }
        }
        assert forall|i: int| 0 <= i < active.len() implies has_node(
            nodes@,
            #[trigger] active[i],
        ) && contains_str(fin_visited, active[i]) by {
            assert(active2[i] == active[i]);
        }
        assert forall|i: int| 0 <= i < fin_visited.len() implies contains_str(
            scope@,
            #[trigger] fin_visited[i]@,
        ) && has_node(nodes@, fin_visited[i]@) by {}
        assert(dfs_inv(nodes@, scope@, visited@, out@, active));
        assert(pre_out.is_prefix_of(out@)) by {
            lemma_prefix_push(pre_out, fin_out, nodes@[node_i as int].id);
        }
        assert(contains_str(out@, my_view));
        assert((visited@, out@) == visit_spec(
            nodes@,
            scope@,
            node_i as int,
            (pre_visited, pre_out),
            fuel,
        )) by {
            assert(fuel != 0);
            assert(!contains_str(pre_visited, nodes@[node_i as int].id@));
            assert(visit_deps_spec(
                nodes@,
                scope@,
                node_i as int,
                deps_n as int,
                st1,
                (fuel - 1) as nat,
            ) == (fin_visited, fin_out));
            assert(out@ =~= fin_out.push(nodes@[node_i as int].id));
        }
    }
    (visited, out)
}

/// The in-scope identifiers as a vector: the workspace members when
/// `workspace_only` is set, every package identifier otherwise.
fn scope_vec(graph: &DependencyGraph, workspace_only: bool) -> (scope: Vec<String>)
    ensures
        scope@ == scope_strs(*graph, workspace_only),
{
    let mut scope: Vec<String> = Vec::new();
    if workspace_only {
        let n = graph.workspace_member_ids.len();
        let mut k: usize = 0;
        while k < n
            invariant
                n == graph.workspace_member_ids@.len(),
                0 <= k <= n,
                scope@.len() == k,
                forall|i: int| 0 <= i < k ==> scope@[i] == graph.workspace_member_ids@[i],
            decreases n - k,
        {
            scope.push(graph.workspace_member_ids[k].clone());
            k += 1;
        }
        proof {
            assert(scope@ =~= scope_strs(*graph, workspace_only));
        }
    } else {
        let n = graph.packages.len();
        let mut k: usize = 0;
        while k < n
            invariant
                n == graph.packages@.len(),
                0 <= k <= n,
                scope@.len() == k,
                forall|i: int| 0 <= i < k ==> scope@[i] == graph.packages@[i].id,
            decreases n - k,
        {
            scope.push(graph.packages[k].id.clone());
            k += 1;
        }
        proof {
            assert(scope@ =~= scope_strs(*graph, workspace_only));
        }
    }
    scope
}

/// The deduplicated, leaf-first ordering of the package identifiers:
/// a depth-first post-order traversal seeded from every in-scope package
/// whose name is not a development-only dependency, with one visited set
/// shared across all roots.
#[verifier::loop_isolation(false)]
pub fn order(
    graph: &DependencyGraph,
    dev_dependency_names: &Vec<String>,
    workspace_only: bool,
) -> (out: Vec<String>)
    requires
        wf_graph(*graph),
        is_dag(graph.nodes@),
    ensures
        out@ == order_spec(*graph, dev_dependency_names@, workspace_only),
        valid_ordering(*graph, dev_dependency_names@, workspace_only, out@),
{
    let ghost rnk = choose|r: Seq<int>| ranked(graph.nodes@, r);
    let scope = scope_vec(graph, workspace_only);
    let mut visited: Vec<String> = Vec::new();
    let mut out: Vec<String> = Vec::new();
    let npk = graph.packages.len();
    let mut pi: usize = 0;
    while pi < npk
        invariant
            0 <= pi <= npk,
            dfs_inv(graph.nodes@, scope@, visited@, out@, Seq::<Seq<char>>::empty()),
            forall|p: int| #![trigger graph.packages@[p]]
                0 <= p < pi && contains_str(scope@, graph.packages@[p].id@) && !contains_str(
                    dev_dependency_names@,
                    graph.packages@[p].name@,
                ) && has_node(graph.nodes@, graph.packages@[p].id@) ==> contains_str(
                    out@,
                    graph.packages@[p].id@,
                ),
            forall|x: Seq<char>|
                contains_str(visited@, x) ==> (exists|y: Seq<char>|
                    contains_str(visited@, y) && edge(graph.nodes@, y, x)) || (exists|p: int|
                    0 <= p < graph.packages@.len() && graph.packages@[p].id@ == x && !contains_str(
                        dev_dependency_names@,
                        graph.packages@[p].name@,
                    )),
            (visited@, out@) == order_upto(*graph, scope@, dev_dependency_names@, pi as int),
        decreases npk - pi,
    {
        let pkg_id = graph.packages[pi].id.clone();
        let pkg_name = graph.packages[pi].name.clone();
        let in_scope = if workspace_only {
            string_in(&scope, &pkg_id)
        } else {
            true
        };
        proof {
            if !workspace_only {
                assert(scope@[pi as int] == graph.packages@[pi as int].id);
                assert(contains_str(scope@, pkg_id@));
            }
        }
        if in_scope {
            if !string_in(dev_dependency_names, &pkg_name) {
                match find_node(&graph.nodes, &pkg_id) {
                    Some(ni) => {
                        let ghost pre_v = visited@;
                        let ghost pre_o = out@;
                        let r2 = visit_dep(
                            &graph.nodes,
                            &scope,
                            ni,
                            visited,
                            out,
                            Ghost(Seq::<Seq<char>>::empty()),
                            Ghost(rnk),
                            Ghost((scope@.len() + 1) as nat),
                        );
                        visited = r2.0;
                        out = r2.1;
                        proof {
                            assert(graph.nodes@[ni as int].id@ == pkg_id@);
                            assert(contains_str(out@, graph.packages@[pi as int].id@));
                            assert forall|p: int|
                                0 <= p < pi + 1 && contains_str(
                                    scope@,
                                    (#[trigger] graph.packages@[p]).id@,
                                ) && !contains_str(dev_dependency_names@, graph.packages@[p].name@)
                                    && has_node(graph.nodes@, graph.packages@[p].id@)
                                implies contains_str(out@, graph.packages@[p].id@) by {
                                if p < pi {
                                    lemma_contains_str_prefix(
                                        pre_o,
                                        out@,
                                        graph.packages@[p].id@,
                                    );
                                }
                            }
                            assert forall|x: Seq<char>| contains_str(visited@, x) implies (exists|
                                y: Seq<char>,
                            |
                                contains_str(visited@, y) && edge(graph.nodes@, y, x)) || (exists|
                                p: int,
                            |
                                0 <= p < graph.packages@.len() && graph.packages@[p].id@ == x
                                    && !contains_str(
                                    dev_dependency_names@,
                                    graph.packages@[p].name@,
                                )) by {
                                if contains_str(pre_v, x) {
                                    if exists|y: Seq<char>|
                                        contains_str(pre_v, y) && edge(graph.nodes@, y, x) {
                                        let y = choose|y: Seq<char>|
                                            contains_str(pre_v, y) && edge(graph.nodes@, y, x);
                                        lemma_contains_str_prefix(pre_v, visited@, y);
                                    }
                                } else if x == pkg_id@ {
                                    assert(graph.packages@[pi as int].id@ == x && !contains_str(
                                        dev_dependency_names@,
                                        graph.packages@[pi as int].name@,
                                    ));
                                }
                            }
                            assert((visited@, out@) == order_upto(
                                *graph,
                                scope@,
                                dev_dependency_names@,
                                pi + 1,
                            )) by {
                                lemma_node_index_of(graph.nodes@, ni as int);
                                assert(node_index(graph.nodes@, graph.packages@[pi as int].id@)
                                    == ni as int);
                                assert(contains_str(scope@, graph.packages@[pi as int].id@));
                                assert(has_node(graph.nodes@, graph.packages@[pi as int].id@));
                                assert(order_upto(*graph, scope@, dev_dependency_names@, pi + 1)
                                    == root_step(
                                    *graph,
                                    scope@,
                                    dev_dependency_names@,
                                    pi as int,
                                    (pre_v, pre_o),
                                ));
                            }
                        }
                    },
                    None => {},
                }
            }
        }
        pi += 1;
    }
    proof {
        let scope_s = scope_strs(*graph, workspace_only);
        assert forall|k: int| 0 <= k < out@.len() implies contains_str(
            scope_s,
            (#[trigger] out@[k])@,
        ) && has_node(graph.nodes@, out@[k]@) by {
            assert(contains_str(visited@, out@[k]@));
            let i = choose|i: int| 0 <= i < visited@.len() && visited@[i]@ == out@[k]@;
            assert(contains_str(scope@, visited@[i]@));
        }
        assert forall|k: int, p: int| #![trigger out@[k], graph.packages@[p]]
            0 <= k < out@.len() && 0 <= p < graph.packages@.len() && graph.packages@[p].id@
                == out@[k]@ && contains_str(dev_dependency_names@, graph.packages@[p].name@)
            implies exists|m: int| 0 <= m < out@.len() && edge(graph.nodes@, out@[m]@, out@[k]@) by {
            let x = out@[k]@;
            assert(contains_str(visited@, x));
            if exists|p2: int|
                0 <= p2 < graph.packages@.len() && graph.packages@[p2].id@ == x && !contains_str(
                    dev_dependency_names@,
                    graph.packages@[p2].name@,
                ) {
                let p2 = choose|p2: int|
                    0 <= p2 < graph.packages@.len() && graph.packages@[p2].id@ == x
                        && !contains_str(dev_dependency_names@, graph.packages@[p2].name@);
                if p2 < p {
                    assert(graph.packages@[p2].id@ != graph.packages@[p].id@);
                } else if p < p2 {
                    assert(graph.packages@[p].id@ != graph.packages@[p2].id@);
                }
                assert(false);
            }
            let y = choose|y: Seq<char>| contains_str(visited@, y) && edge(graph.nodes@, y, x);
            let yi = choose|i: int| 0 <= i < visited@.len() && visited@[i]@ == y;
            assert(contains_str(out@, visited@[yi]@) || Seq::<Seq<char>>::empty().contains(
                visited@[yi]@,
            ));
            let m = choose|m: int| 0 <= m < out@.len() && out@[m]@ == y;
            assert(edge(graph.nodes@, out@[m]@, out@[k]@));
        }
        assert(valid_ordering(*graph, dev_dependency_names@, workspace_only, out@));
        assert(out@ == order_spec(*graph, dev_dependency_names@, workspace_only)) by {
            assert((visited@, out@) == order_upto(
                *graph,
                scope_strs(*graph, workspace_only),
                dev_dependency_names@,
                graph.packages@.len() as int,
            ));
        }
    }
    out
}

/// Whether `id` resolves to a package record and, under the workspace
/// restriction, lies in scope.
pub open spec fn resolvable(
    packages: Seq<PackageRecord>,
    scope: Seq<String>,
    workspace_only: bool,
    id: Seq<char>,
) -> bool {
    (exists|p: int| 0 <= p < packages.len() && packages[p].id@ == id) && (!workspace_only
        || contains_str(scope, id))
}

/// The index of the package record for `id`; meaningful when one exists
/// and package identifiers are distinct.
pub open spec fn package_index(packages: Seq<PackageRecord>, id: Seq<char>) -> int {
    choose|p: int| 0 <= p < packages.len() && packages[p].id@ == id
}

/// The ordered-dependency record of the package for `id`.
pub open spec fn record_of(packages: Seq<PackageRecord>, id: Seq<char>) -> OrderedDependency {
    let p = packages[package_index(packages, id)];
    OrderedDependency { name: p.name, version: p.version, path: p.path }
}

/// `ids` resolved in order: each identifier that resolves contributes its
/// record, the others are dropped.
pub open spec fn resolve_seq(
    packages: Seq<PackageRecord>,
    scope: Seq<String>,
    workspace_only: bool,
    ids: Seq<String>,
) -> Seq<OrderedDependency>
    decreases ids.len(),
{
    if ids.len() == 0 {
        Seq::empty()
    } else if resolvable(packages, scope, workspace_only, ids[0]@) {
        seq![record_of(packages, ids[0]@)] + resolve_seq(
            packages,
            scope,
            workspace_only,
            ids.drop_first(),
        )
    } else {
        resolve_seq(packages, scope, workspace_only, ids.drop_first())
    }
}

/// The record for `id`, when some package has that identifier and, under
/// the workspace restriction, the identifier is in scope.
fn find_package(
    packages: &Vec<PackageRecord>,
    scope: &Vec<String>,
    workspace_only: bool,
    id: &String,
) -> (r: Option<OrderedDependency>)
    requires
        distinct_package_ids(packages@),
    ensures
        match r {
            Some(d) => resolvable(packages@, scope@, workspace_only, id@) && d == record_of(
                packages@,
                id@,
            ),
            None => !resolvable(packages@, scope@, workspace_only, id@),
        },
{
    if workspace_only && !string_in(scope, id) {
        return None;
    }
    let n = packages.len();
    let mut k: usize = 0;
    while k < n
        invariant
            distinct_package_ids(packages@),
            n == packages@.len(),
            0 <= k <= n,
            forall|i: int| 0 <= i < k ==> packages@[i].id@ != id@,
            !workspace_only || contains_str(scope@, id@),
        decreases n - k,
    {
        if packages[k].id.eq(id) {
            proof {
                assert(exists|p: int| 0 <= p < packages@.len() && packages@[p].id@ == id@);
                let p = package_index(packages@, id@);
                if p < k as int {
                    assert(packages@[p].id@ != packages@[k as int].id@);
                } else if p > k as int {
                    assert(packages@[k as int].id@ != packages@[p].id@);
                }
            }
            return Some(
                OrderedDependency {
                    name: packages[k].name.clone(),
                    version: packages[k].version.clone(),
                    path: packages[k].path.clone(),
                },
            );
        }
        k += 1;
    }
    None
}

/// Resolve ordered identifiers into dependency records, in emission
/// order.  An identifier without a package record is dropped silently,
/// and under the workspace restriction so is one outside the workspace.
pub fn resolve(
    graph: &DependencyGraph,
    ids: &Vec<String>,
    workspace_only: bool,
) -> (deps: Vec<OrderedDependency>)
    requires
        distinct_package_ids(graph.packages@),
    ensures
        deps@ == resolve_seq(
            graph.packages@,
            scope_strs(*graph, workspace_only),
            workspace_only,
            ids@,
        ),
{
    let scope = scope_vec(graph, workspace_only);
    let mut deps: Vec<OrderedDependency> = Vec::new();
    let n = ids.len();
    let mut k: usize = 0;
    proof {
        assert(ids@.skip(0) =~= ids@);
        assert(deps@ + resolve_seq(graph.packages@, scope@, workspace_only, ids@) =~= resolve_seq(
            graph.packages@,
            scope@,
            workspace_only,
            ids@,
        ));
    }
    while k < n
        invariant
            distinct_package_ids(graph.packages@),
            scope@ == scope_strs(*graph, workspace_only),
            n == ids@.len(),
            0 <= k <= n,
            resolve_seq(graph.packages@, scope@, workspace_only, ids@) == deps@ + resolve_seq(
                graph.packages@,
                scope@,
                workspace_only,
                ids@.skip(k as int),
            ),
        decreases n - k,
    {
        let ghost pre = deps@;
        let ghost tail = ids@.skip(k as int);
        match find_package(&graph.packages, &scope, workspace_only, &ids[k]) {
            Some(d) => {
                deps.push(d);
            },
            None => {},
        }
        proof {
            assert(tail[0] == ids@[k as int]);
            assert(tail.drop_first() =~= ids@.skip(k + 1));
            if resolvable(graph.packages@, scope@, workspace_only, ids@[k as int]@) {
                assert(resolve_seq(graph.packages@, scope@, workspace_only, tail) == seq![
                    record_of(graph.packages@, ids@[k as int]@),
                ] + resolve_seq(graph.packages@, scope@, workspace_only, ids@.skip(k + 1)));
                assert(pre + (seq![record_of(graph.packages@, ids@[k as int]@)] + resolve_seq(
                    graph.packages@,
                    scope@,
                    workspace_only,
                    ids@.skip(k + 1),
                )) =~= deps@ + resolve_seq(
                    graph.packages@,
                    scope@,
                    workspace_only,
                    ids@.skip(k + 1),
                ));
            }
        }
        k += 1;
    }
    proof {
        assert(ids@.skip(n as int) =~= Seq::<String>::empty());
        assert(deps@ + resolve_seq(
            graph.packages@,
            scope@,
            workspace_only,
            Seq::<String>::empty(),
        ) =~= deps@);
    }
    deps
}

/// The full pipeline over an already-loaded graph: compute the leaf-first
/// ordering of the identifiers, then resolve each into its dependency
/// record, in emission order.
pub fn list_dependencies(
    graph: &DependencyGraph,
    dev_dependency_names: &Vec<String>,
    workspace_only: bool,
) -> (deps: Vec<OrderedDependency>)
    requires
        wf_graph(*graph),
        is_dag(graph.nodes@),
    ensures
        deps@ == resolve_seq(
            graph.packages@,
            scope_strs(*graph, workspace_only),
            workspace_only,
            order_spec(*graph, dev_dependency_names@, workspace_only),
        ),
        valid_ordering(
            *graph,
            dev_dependency_names@,
            workspace_only,
            order_spec(*graph, dev_dependency_names@, workspace_only),
        ),
{
    let ids = order(graph, dev_dependency_names, workspace_only);
    let deps = resolve(graph, &ids, workspace_only);
    deps
}

/// Idempotence: the ordering is a function of the graph, the
/// development-dependency names and the scope flag alone, so two runs on
/// an unchanged graph emit one and the same sequence.
pub proof fn lemma_idempotent(
    g: DependencyGraph,
    dev: Seq<String>,
    workspace_only: bool,
    out1: Seq<String>,
    out2: Seq<String>,
)
    requires
        out1 == order_spec(g, dev, workspace_only),
        out2 == order_spec(g, dev, workspace_only),
    ensures
        out1 == out2,
{
}

/// Leaf-first: when one emitted identifier depends on another, the
/// dependency stands strictly earlier in the ordering.
pub proof fn lemma_leaf_first(
    g: DependencyGraph,
    dev: Seq<String>,
    workspace_only: bool,
    out: Seq<String>,
    i: int,
    j: int,
)
    requires
        valid_ordering(g, dev, workspace_only, out),
        0 <= i < out.len(),
        0 <= j < out.len(),
        edge(g.nodes@, out[i]@, out[j]@),
    ensures
        j < i,
{
    assert(contains_str(scope_strs(g, workspace_only), out[j]@) && has_node(g.nodes@, out[j]@));
    let m = choose|m: int| 0 <= m < i && out[m]@ == out[j]@;
    if m < j {
        assert(out[m]@ != out[j]@);
    } else if j < m {
        assert(out[j]@ != out[m]@);
    }
}

/// Dedup: a package identifier occupies at most one position of the
/// ordering, however many roots or paths reach it.
pub proof fn lemma_dedup(
    g: DependencyGraph,
    dev: Seq<String>,
    workspace_only: bool,
    out: Seq<String>,
    i: int,
    j: int,
)
    requires
        valid_ordering(g, dev, workspace_only, out),
        0 <= i < j < out.len(),
    ensures
        out[i]@ != out[j]@,
{
}

/// Scope containment: under the workspace restriction, every emitted
/// identifier is a workspace member.
pub proof fn lemma_scope_containment(g: DependencyGraph, dev: Seq<String>, out: Seq<String>, k: int)
    requires
        valid_ordering(g, dev, true, out),
        0 <= k < out.len(),
    ensures
        contains_str(g.workspace_member_ids@, out[k]@),
{
    assert(scope_strs(g, true) == g.workspace_member_ids@);
}

/// Development-dependency root exclusion: an emitted package whose name
/// is a top-level development dependency was never chosen as a root; it
/// stands in the ordering only because another emitted package depends
/// on it.
pub proof fn lemma_dev_root_exclusion(
    g: DependencyGraph,
    dev: Seq<String>,
    workspace_only: bool,
    out: Seq<String>,
    k: int,
    p: int,
)
    requires
        valid_ordering(g, dev, workspace_only, out),
        0 <= k < out.len(),
        0 <= p < g.packages@.len(),
        g.packages@[p].id@ == out[k]@,
        contains_str(dev, g.packages@[p].name@),
    ensures
        exists|m: int| 0 <= m < out.len() && edge(g.nodes@, out[m]@, out[k]@),
{
}

/// Whether some declaration marks `x` as a development-only dependency.
pub open spec fn dev_declared(declared: Seq<DeclaredDependency>, x: Seq<char>) -> bool {
    exists|i: int| 0 <= i < declared.len() && declared[i].development && declared[i].name@ == x
}

/// The names declared anywhere as development-only dependencies, each
/// once, in first-occurrence order.
pub fn collect_dev_dependency_names(declared: &Vec<DeclaredDependency>) -> (names: Vec<String>)
    ensures
        distinct_strs(names@),
        forall|k: int| #![trigger names@[k]]
            0 <= k < names@.len() ==> dev_declared(declared@, names@[k]@),
        forall|i: int| #![trigger declared@[i]]
            0 <= i < declared@.len() && declared@[i].development ==> contains_str(
                names@,
                declared@[i].name@,
            ),
{
    let mut names: Vec<String> = Vec::new();
    let n = declared.len();
    let mut i: usize = 0;
    while i < n
        invariant
            n == declared@.len(),
            0 <= i <= n,
            distinct_strs(names@),
            forall|k: int| #![trigger names@[k]]
                0 <= k < names@.len() ==> dev_declared(declared@, names@[k]@),
            forall|j: int| #![trigger declared@[j]]
                0 <= j < i && declared@[j].development ==> contains_str(
                    names@,
                    declared@[j].name@,
                ),
        decreases n - i,
    {
        if declared[i].development {
            if !string_in(&names, &declared[i].name) {
                let ghost pre = names@;
                names.push(declared[i].name.clone());
                proof {
                    assert(names@[pre.len() as int]@ == declared@[i as int].name@);
                    assert forall|j: int|
                        0 <= j < i + 1 && (#[trigger] declared@[j]).development
                        implies contains_str(names@, declared@[j].name@) by {
                        if j < i {
                            lemma_contains_str_push(
                                pre,
                                names@[pre.len() as int],
                                declared@[j].name@,
                            );
                            assert(pre.push(names@[pre.len() as int]) =~= names@);
                        }
                    }
                }
            }
        }
        i += 1;
    }
    names
}

} // verus!
