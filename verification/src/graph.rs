//! The data model of the resolved dependency graph, and the spec-level
//! vocabulary that the ordering contracts are written in.

use vstd::prelude::*;

verus! {

/// One vertex of the resolved dependency graph: a package identifier
/// together with the identifiers of the packages it depends on, in the
/// resolver's native edge order.
pub struct GraphNode {
    pub id: String,
    pub deps: Vec<String>,
}

/// Descriptive metadata for one package: its identifier, its name (unique
/// within one resolved graph), its semantic-version string, and the
/// directory holding its manifest.
pub struct PackageRecord {
    pub id: String,
    pub name: String,
    pub version: String,
    pub path: String,
}

/// The resolved dependency graph: one node per package identifier, the
/// package records, and the subset of identifiers that are local workspace
/// members rather than external dependencies.
pub struct DependencyGraph {
    pub nodes: Vec<GraphNode>,
    pub packages: Vec<PackageRecord>,
    pub workspace_member_ids: Vec<String>,
}

/// One entry of the ordered result: the package's name, version and
/// manifest directory.
pub struct OrderedDependency {
    pub name: String,
    pub version: String,
    pub path: String,
}

/// A dependency declaration as written in some package's manifest: the
/// declared name and whether it is a development-only dependency.
pub struct DeclaredDependency {
    pub name: String,
    pub development: bool,
}

/// Whether some string of `v` has view `x`.
pub open spec fn contains_str(v: Seq<String>, x: Seq<char>) -> bool {
    exists|i: int| 0 <= i < v.len() && v[i]@ == x
}

/// The views of the strings of `v` are pairwise distinct.
pub open spec fn distinct_strs(v: Seq<String>) -> bool {
    forall|i: int, j: int| #![trigger v[i], v[j]] 0 <= i < j < v.len() ==> v[i]@ != v[j]@
}

/// Whether the node table holds a node for identifier `id`.
pub open spec fn has_node(nodes: Seq<GraphNode>, id: Seq<char>) -> bool {
    exists|i: int| 0 <= i < nodes.len() && nodes[i].id@ == id
}

/// The index of the node for `id`; meaningful when `has_node` holds and
/// node identifiers are distinct.
pub open spec fn node_index(nodes: Seq<GraphNode>, id: Seq<char>) -> int {
    choose|i: int| 0 <= i < nodes.len() && nodes[i].id@ == id
}

/// Node identifiers are pairwise distinct: one node per package identifier.
pub open spec fn distinct_node_ids(nodes: Seq<GraphNode>) -> bool {
    forall|i: int, j: int| #![trigger nodes[i], nodes[j]]
        0 <= i < j < nodes.len() ==> nodes[i].id@ != nodes[j].id@
}

/// Package identifiers are pairwise distinct.
pub open spec fn distinct_package_ids(packages: Seq<PackageRecord>) -> bool {
    forall|i: int, j: int| #![trigger packages[i], packages[j]]
        0 <= i < j < packages.len() ==> packages[i].id@ != packages[j].id@
}

/// The graph names `b` as a direct dependency of `a`.
pub open spec fn edge(nodes: Seq<GraphNode>, a: Seq<char>, b: Seq<char>) -> bool {
    has_node(nodes, a) && contains_str(nodes[node_index(nodes, a)].deps@, b)
}

/// A well-formed graph: one node and at most one package record per
/// identifier.
pub open spec fn wf_graph(g: DependencyGraph) -> bool {
    distinct_node_ids(g.nodes@) && distinct_package_ids(g.packages@)
}

/// The identifiers in scope: the workspace members when `workspace_only`
/// is set, every known package identifier otherwise.
pub open spec fn scope_strs(g: DependencyGraph, workspace_only: bool) -> Seq<String> {
    if workspace_only {
        g.workspace_member_ids@
    } else {
        g.packages@.map_values(|p: PackageRecord| p.id)
    }
}

/// When the node identifiers are distinct, the node found at index `i`
/// is the node that `node_index` picks for its identifier.
pub proof fn lemma_node_index_of(nodes: Seq<GraphNode>, i: int)
    requires
        distinct_node_ids(nodes),
        0 <= i < nodes.len(),
    ensures
        has_node(nodes, nodes[i].id@),
        node_index(nodes, nodes[i].id@) == i,
{
    assert(has_node(nodes, nodes[i].id@));
    let j = node_index(nodes, nodes[i].id@);
    if j < i {
        assert(nodes[j].id@ != nodes[i].id@);
    } else if j > i {
        assert(nodes[i].id@ != nodes[j].id@);
    }
}

/// An element of a prefix is an element of the whole.
pub proof fn lemma_contains_str_prefix(a: Seq<String>, b: Seq<String>, x: Seq<char>)
    requires
        a.is_prefix_of(b),
        contains_str(a, x),
    ensures
        contains_str(b, x),
{
    let i = choose|i: int| 0 <= i < a.len() && a[i]@ == x;
    assert(b[i]@ == x);
}

/// A prefix of a prefix is a prefix.
pub proof fn lemma_prefix_trans(a: Seq<String>, b: Seq<String>, c: Seq<String>)
    requires
        a.is_prefix_of(b),
        b.is_prefix_of(c),
    ensures
        a.is_prefix_of(c),
{
    assert(a =~= c.subrange(0, a.len() as int)) by {
        assert forall|i: int| 0 <= i < a.len() implies a[i] == c.subrange(0, a.len() as int)[i] by {
            assert(a[i] == b.subrange(0, a.len() as int)[i]);
            assert(b[i] == c.subrange(0, b.len() as int)[i]);
        }
    }
}

/// Appending elements keeps an existing prefix.
pub proof fn lemma_prefix_push(a: Seq<String>, b: Seq<String>, x: String)
    requires
        a.is_prefix_of(b),
    ensures
        a.is_prefix_of(b.push(x)),
{
    assert(a =~= b.push(x).subrange(0, a.len() as int)) by {
        assert forall|i: int| 0 <= i < a.len() implies a[i] == b.push(x).subrange(
            0,
            a.len() as int,
        )[i] by {
            assert(a[i] == b.subrange(0, a.len() as int)[i]);
        }
    }
}

/// An element stays present when the sequence grows by one.
pub proof fn lemma_contains_str_push(v: Seq<String>, x: String, y: Seq<char>)
    requires
        contains_str(v, y),
    ensures
        contains_str(v.push(x), y),
{
    let i = choose|i: int| 0 <= i < v.len() && v[i]@ == y;
    assert(v.push(x)[i]@ == y);
}

/// A sequence of strings with pairwise-distinct views, all of which occur
/// in `scope`, is no longer than `scope`.
pub proof fn lemma_distinct_in_scope_len(visited: Seq<String>, scope: Seq<String>)
    requires
        distinct_strs(visited),
        forall|i: int| 0 <= i < visited.len() ==> contains_str(scope, #[trigger] visited[i]@),
    ensures
        visited.len() <= scope.len(),
{
    broadcast use vstd::seq_lib::seq_to_set_is_finite;
    broadcast use vstd::set::group_set_axioms;

    let vv = visited.map_values(|s: String| s@);
    let sv = scope.map_values(|s: String| s@);
    assert(vv.no_duplicates()) by {
        assert forall|i: int, j: int|
            0 <= i < vv.len() && 0 <= j < vv.len() && i != j implies vv[i] != vv[j] by {
            assert(vv[i] == visited[i]@);
            assert(vv[j] == visited[j]@);
        }
    }
    vv.unique_seq_to_set();
    sv.lemma_cardinality_of_set();
    assert forall|x: Seq<char>| vv.to_set().contains(x) implies sv.to_set().contains(x) by {
        assert(vv.contains(x));
        let i = choose|i: int| 0 <= i < vv.len() && vv[i] == x;
        assert(visited[i]@ == x);
        assert(contains_str(scope, x));
        let j = choose|j: int| 0 <= j < scope.len() && scope[j]@ == x;
        assert(sv[j] == x);
        assert(sv.contains(x));
    }
    vstd::set_lib::lemma_len_subset(vv.to_set(), sv.to_set());
}

/// Whether `x` occurs in `v`, by string equality.
pub fn string_in(v: &Vec<String>, x: &String) -> (r: bool)
    ensures
        r == contains_str(v@, x@),
{
    let n = v.len();
    let mut k: usize = 0;
    while k < n
        invariant
            n == v@.len(),
            0 <= k <= n,
            forall|i: int| 0 <= i < k ==> v@[i]@ != x@,
        decreases n - k,
    {
        if v[k].eq(x) {
            assert(contains_str(v@, x@));
            return true;
        }
        k += 1;
    }
    false
}

/// The index of the node for identifier `id`, if the table has one.
pub fn find_node(nodes: &Vec<GraphNode>, id: &String) -> (r: Option<usize>)
    ensures
        match r {
            Some(i) => i < nodes@.len() && nodes@[i as int].id@ == id@,
            None => !has_node(nodes@, id@),
        },
{
    let n = nodes.len();
    let mut k: usize = 0;
    while k < n
        invariant
            n == nodes@.len(),
            0 <= k <= n,
            forall|i: int| 0 <= i < k ==> nodes@[i].id@ != id@,
        decreases n - k,
    {
        if nodes[k].id.eq(id) {
            return Some(k);
        }
        k += 1;
    }
    None
}

} // verus!
