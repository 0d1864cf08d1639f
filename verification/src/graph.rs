//! The dependency graph and its builder: nodes are package names with
//! stable indices, edges point from a requiring package to a required one.
//! `build` expands a bootstrap set to the full transitive closure over the
//! catalog's dependency relation; `sequence` emits a deterministic, total
//! ordering of the nodes.

use vstd::prelude::*;
use crate::catalog::Catalog;
use crate::eopkg::index::PackageView;

verus! {

/// A directed edge between two node indices: `from` depends on `to`.
pub struct Edge {
    pub from: usize,
    pub to: usize,
}

/// A directed graph over package names. Node indices are assigned on first
/// insertion and never change; edges join existing indices. Self-loops and
/// cycles are allowed.
pub struct DependencyGraph {
    names: Vec<String>,
    edges: Vec<Edge>,
}

impl DependencyGraph {
    /// The node names, in insertion order, as views.
    pub closed spec fn node_names(self) -> Seq<Seq<char>> {
        self.names.deep_view()
    }

    /// The edges, in insertion order.
    pub closed spec fn edges_seq(self) -> Seq<Edge> {
        self.edges@
    }

    /// Well-formedness: node names are pairwise distinct and every edge
    /// joins existing node indices.
    pub open spec fn wf(self) -> bool {
        &&& forall|i: int, j: int|
            0 <= i < j < self.node_names().len() ==> self.node_names()[i] != self.node_names()[j]
        &&& forall|k: int|
            0 <= k < self.edges_seq().len() ==> (#[trigger] self.edges_seq()[k]).from
                < self.node_names().len() && self.edges_seq()[k].to < self.node_names().len()
    }

    /// Whether a name has a node.
    pub open spec fn has_node(self, n: Seq<char>) -> bool {
        exists|i: int| 0 <= i < self.node_names().len() && self.node_names()[i] == n
    }

    /// The index of a name's node.
    pub open spec fn node_index(self, n: Seq<char>) -> int {
        choose|i: int| 0 <= i < self.node_names().len() && self.node_names()[i] == n
    }

    /// Whether edge `k` joins the named nodes.
    pub open spec fn edge_connects(self, k: int, a: Seq<char>, b: Seq<char>) -> bool {
        &&& self.node_names()[self.edges_seq()[k].from as int] == a
        &&& self.node_names()[self.edges_seq()[k].to as int] == b
    }

    /// Whether some edge joins the named nodes.
    pub open spec fn has_edge(self, a: Seq<char>, b: Seq<char>) -> bool {
        exists|k: int| 0 <= k < self.edges_seq().len() && self.edge_connects(k, a, b)
    }

    /// In a well-formed graph, every node position is the index of its name.
    pub proof fn lemma_node_at(self, i: int)
        requires
            self.wf(),
            0 <= i < self.node_names().len(),
        ensures
            self.has_node(self.node_names()[i]),
            self.node_index(self.node_names()[i]) == i,
    {
        let n = self.node_names()[i];
        assert(self.has_node(n));
        let j = self.node_index(n);
        if i < j {
            assert(self.node_names()[i] != self.node_names()[j]);
        } else if j < i {
            assert(self.node_names()[j] != self.node_names()[i]);
        }
    }

    /// An empty graph.
    pub fn new() -> (r: DependencyGraph)
        ensures
            r.node_names() == Seq::<Seq<char>>::empty(),
            r.edges_seq() == Seq::<Edge>::empty(),
            r.wf(),
    {
        let r = DependencyGraph { names: Vec::new(), edges: Vec::new() };
        proof {
            assert(r.node_names() =~= Seq::<Seq<char>>::empty());
            assert(r.edges_seq() =~= Seq::<Edge>::empty());
        }
        r
    }

    /// How many nodes the graph holds.
    pub fn node_count(&self) -> (n: usize)
        ensures
            n == self.node_names().len(),
    {
        self.names.len()
    }

    /// How many edges the graph holds.
    pub fn edge_count(&self) -> (n: usize)
        ensures
            n == self.edges_seq().len(),
    {
        self.edges.len()
    }

    /// The name of the node at an index.
    pub fn node_name(&self, i: usize) -> (r: &String)
        requires
            i < self.node_names().len(),
        ensures
            r@ == self.node_names()[i as int],
    {
        &self.names[i]
    }

    /// The index of a name's node, if the name is known.
    pub fn get_index(&self, name: &String) -> (r: Option<usize>)
        requires
            self.wf(),
        ensures
            match r {
                Some(i) => i < self.node_names().len() && self.node_names()[i as int] == name@
                    && self.node_index(name@) == i,
                None => !self.has_node(name@),
            },
    {
        let n = self.names.len();
        for i in 0..n
            invariant
                n == self.node_names().len(),
                self.wf(),
                forall|j: int| 0 <= j < i ==> self.node_names()[j] != name@,
        {
            assert(self.node_names()[i as int] == self.names.deep_view()[i as int]);
            if self.names[i] == *name {
                proof {
                    self.lemma_node_at(i as int);
                }
                return Some(i);
            }
        }
        None
    }

    /// Obtain the node for a name, creating it at the next index if the
    /// name is new.
    pub fn add_node_or_get_index(&mut self, name: String) -> (r: usize)
        requires
            old(self).wf(),
        ensures
            final(self).wf(),
            final(self).edges_seq() == old(self).edges_seq(),
            r < final(self).node_names().len(),
            final(self).node_names()[r as int] == name@,
            old(self).has_node(name@) ==> final(self).node_names() == old(self).node_names() && r
                == old(self).node_index(name@),
            !old(self).has_node(name@) ==> final(self).node_names() == old(self).node_names().push(name@) && r == old(self).node_names().len(),
    {
        match self.get_index(&name) {
            Some(i) => i,
            None => {
                let r = self.names.len();
                self.names.push(name);
                proof {
                    let pre = old(self).node_names();
                    let post = self.node_names();
                    assert(post =~= pre.push(name@));
                    assert forall|a: int, b: int|
                        0 <= a < b < post.len() implies post[a] != post[b] by {
                        if b < pre.len() {
                            assert(pre[a] != pre[b]);
                        } else {
                            assert(post[b] == name@);
                            assert(!old(self).has_node(name@));
                            assert(pre[a] != name@);
                        }
                    }
                    assert forall|k: int| 0 <= k < self.edges_seq().len() implies (#[trigger] self.edges_seq()[k]).from
                        < post.len() && self.edges_seq()[k].to < post.len() by {
                        assert(self.edges_seq()[k] == old(self).edges_seq()[k]);
                        assert(old(self).edges_seq()[k].from < pre.len());
                        assert(old(self).edges_seq()[k].to < pre.len());
                    }
                }
                r
            },
        }
    }

    /// Add a directed edge between two existing node indices.
    pub fn add_edge(&mut self, from: usize, to: usize)
        requires
            old(self).wf(),
            from < old(self).node_names().len(),
            to < old(self).node_names().len(),
        ensures
            final(self).wf(),
            final(self).node_names() == old(self).node_names(),
            final(self).edges_seq() == old(self).edges_seq().push(Edge { from, to }),
    {
        self.edges.push(Edge { from, to });
        proof {
            assert forall|k: int| 0 <= k < self.edges_seq().len() implies (#[trigger] self.edges_seq()[k]).from
                < self.node_names().len() && self.edges_seq()[k].to < self.node_names().len() by {
                if k < old(self).edges_seq().len() {
                    assert(self.edges_seq()[k] == old(self).edges_seq()[k]);
                    assert(old(self).edges_seq()[k].from < old(self).node_names().len());
                } else {
                    assert(self.edges_seq()[k] == (Edge { from, to }));
                }
            }
        }
    }

    /// Whether the graph holds a node for this name.
    pub fn contains_node(&self, name: &String) -> (r: bool)
        requires
            self.wf(),
        ensures
            r == self.has_node(name@),
    {
        match self.get_index(name) {
            Some(_) => true,
            None => false,
        }
    }

    /// Whether some edge joins the two named nodes.
    pub fn contains_edge(&self, from: &String, to: &String) -> (r: bool)
        requires
            self.wf(),
        ensures
            r == self.has_edge(from@, to@),
    {
        let n = self.edges.len();
        for k in 0..n
            invariant
                n == self.edges_seq().len(),
                self.wf(),
                forall|j: int| 0 <= j < k ==> !self.edge_connects(j, from@, to@),
        {
            let e = &self.edges[k];
            if self.names[e.from] == *from && self.names[e.to] == *to {
                assert(self.edge_connects(k as int, from@, to@));
                return true;
            }
            assert(!self.edge_connects(k as int, from@, to@));
        }
        false
    }
}

/// Errors of the closure builder.
#[derive(Debug)]
pub enum Error {
    /// A bootstrap or dependency name has no catalog entry; the closure
    /// cannot be completed and no partial graph is returned.
    UnknownPackage(String),
}

/// Whether consecutive entries of `path` are joined by the catalog's
/// dependency relation: each entry but the last is a catalog name whose
/// record lists the next entry as a dependency.
pub open spec fn dep_path(cat: Catalog, path: Seq<Seq<char>>) -> bool {
    forall|k: int|
        0 <= k < path.len() - 1 ==> cat.contains_name(#[trigger] path[k]) && cat.record(
            path[k],
        ).dep_names().contains(path[k + 1])
}

/// Whether `target` is reachable from the name set `from` over the
/// catalog's dependency relation (in zero or more steps).
pub open spec fn reaches(cat: Catalog, from: Set<Seq<char>>, target: Seq<char>) -> bool {
    exists|path: Seq<Seq<char>>|
        #![auto]
        path.len() > 0 && from.contains(path[0]) && path.last() == target && dep_path(cat, path)
}

/// Every member of the starting set is reachable.
pub proof fn lemma_reaches_member(cat: Catalog, from: Set<Seq<char>>, n: Seq<char>)
    requires
        from.contains(n),
    ensures
        reaches(cat, from, n),
{
    let path = seq![n];
    assert(path.last() == n);
    assert(dep_path(cat, path));
    assert(path.len() > 0 && from.contains(path[0]) && path.last() == n && dep_path(cat, path));
}

/// Reachability steps through one listed dependency.
pub proof fn lemma_reaches_step(cat: Catalog, from: Set<Seq<char>>, a: Seq<char>, b: Seq<char>)
    requires
        reaches(cat, from, a),
        cat.contains_name(a),
        cat.record(a).dep_names().contains(b),
    ensures
        reaches(cat, from, b),
{
    let path = choose|path: Seq<Seq<char>>|
        #![auto]
        path.len() > 0 && from.contains(path[0]) && path.last() == a && dep_path(cat, path);
    let p2 = path.push(b);
    assert(p2.last() == b);
    assert forall|k: int|
        0 <= k < p2.len() - 1 implies cat.contains_name(#[trigger] p2[k]) && cat.record(
        p2[k],
    ).dep_names().contains(p2[k + 1]) by {
        if k < path.len() - 1 {
            assert(p2[k] == path[k]);
            assert(p2[k + 1] == path[k + 1]);
            assert(cat.contains_name(path[k]) && cat.record(path[k]).dep_names().contains(
                path[k + 1],
            ));
        } else {
            assert(p2[k] == path[k]);
            assert(path[k] == path.last());
            assert(p2[k + 1] == b);
        }
    }
    assert(p2.len() > 0 && from.contains(p2[0]) && p2.last() == b && dep_path(cat, p2));
}

/// Whether a name set contains every catalog name it mentions together
/// with all their listed dependencies.
pub open spec fn closed_node_set(cat: Catalog, nodes: Set<Seq<char>>) -> bool {
    forall|n: Seq<char>| #[trigger]
        nodes.contains(n) ==> cat.contains_name(n) && (forall|j: int|
            0 <= j < cat.record(n).dep_names().len() ==> nodes.contains(
                #[trigger] cat.record(n).dep_names()[j],
            ))
}

proof fn lemma_path_end_in_closed(
    cat: Catalog,
    from: Set<Seq<char>>,
    nodes: Set<Seq<char>>,
    path: Seq<Seq<char>>,
)
    requires
        closed_node_set(cat, nodes),
        forall|n: Seq<char>| #[trigger] from.contains(n) ==> nodes.contains(n),
        path.len() > 0,
        from.contains(path[0]),
        dep_path(cat, path),
    ensures
        nodes.contains(path.last()),
    decreases path.len(),
{
    if path.len() == 1 {
        assert(nodes.contains(path[0]));
    } else {
        let pre = path.drop_last();
        assert(pre[0] == path[0]);
        assert forall|k: int|
            0 <= k < pre.len() - 1 implies cat.contains_name(#[trigger] pre[k]) && cat.record(
            pre[k],
        ).dep_names().contains(pre[k + 1]) by {
            assert(pre[k] == path[k]);
            assert(pre[k + 1] == path[k + 1]);
            assert(cat.contains_name(path[k]) && cat.record(path[k]).dep_names().contains(
                path[k + 1],
            ));
        }
        lemma_path_end_in_closed(cat, from, nodes, pre);
        let last2 = path[path.len() - 2];
        assert(pre.last() == last2);
        assert(cat.contains_name(path[path.len() - 2]) && cat.record(
            path[path.len() - 2],
        ).dep_names().contains(path[path.len() - 2 + 1]));
        let j = choose|j: int|
            0 <= j < cat.record(last2).dep_names().len() && cat.record(last2).dep_names()[j]
                == path.last();
        assert(nodes.contains(cat.record(last2).dep_names()[j]));
    }
}

/// Any set of names that contains the starting set and is closed under the
/// catalog's dependency relation contains every reachable name.
pub proof fn lemma_reaches_in_closed(
    cat: Catalog,
    from: Set<Seq<char>>,
    nodes: Set<Seq<char>>,
    target: Seq<char>,
)
    requires
        closed_node_set(cat, nodes),
        forall|n: Seq<char>| #[trigger] from.contains(n) ==> nodes.contains(n),
        reaches(cat, from, target),
    ensures
        nodes.contains(target),
{
    let path = choose|path: Seq<Seq<char>>|
        #![auto]
        path.len() > 0 && from.contains(path[0]) && path.last() == target && dep_path(cat, path);
    lemma_path_end_in_closed(cat, from, nodes, path);
}

/// Whether a node of this name has been fully expanded: its record was
/// found and every listed dependency has a node and an edge from it.
pub open spec fn expanded(g: DependencyGraph, cat: Catalog, n: Seq<char>) -> bool {
    &&& cat.contains_name(n)
    &&& forall|j: int|
        0 <= j < cat.record(n).dep_names().len() ==> g.has_node(
            #[trigger] cat.record(n).dep_names()[j],
        ) && g.has_edge(n, cat.record(n).dep_names()[j])
}

/// Whether edge `k` of the graph mirrors a listed dependency.
pub open spec fn edge_sound(g: DependencyGraph, cat: Catalog, k: int) -> bool {
    let a = g.node_names()[g.edges_seq()[k].from as int];
    let b = g.node_names()[g.edges_seq()[k].to as int];
    cat.contains_name(a) && cat.record(a).dep_names().contains(b)
}

/// Nodes, edges and expansions persist when a graph only grows.
pub proof fn lemma_graph_grows(g1: DependencyGraph, g2: DependencyGraph, cat: Catalog)
    requires
        g1.wf(),
        g1.node_names().len() <= g2.node_names().len(),
        forall|i: int|
            0 <= i < g1.node_names().len() ==> g2.node_names()[i] == #[trigger] g1.node_names()[i],
        g1.edges_seq().len() <= g2.edges_seq().len(),
        forall|k: int|
            0 <= k < g1.edges_seq().len() ==> g2.edges_seq()[k] == #[trigger] g1.edges_seq()[k],
    ensures
        forall|n: Seq<char>| #[trigger] g1.has_node(n) ==> g2.has_node(n),
        forall|a: Seq<char>, b: Seq<char>| #[trigger] g1.has_edge(a, b) ==> g2.has_edge(a, b),
        forall|n: Seq<char>| #[trigger] expanded(g1, cat, n) ==> expanded(g2, cat, n),
{
    assert forall|n: Seq<char>| g1.has_node(n) implies g2.has_node(n) by {
        let i = choose|i: int| 0 <= i < g1.node_names().len() && g1.node_names()[i] == n;
        assert(g2.node_names()[i] == n);
    }
    assert forall|a: Seq<char>, b: Seq<char>| g1.has_edge(a, b) implies g2.has_edge(a, b) by {
        let k = choose|k: int| 0 <= k < g1.edges_seq().len() && g1.edge_connects(k, a, b);
        assert(g2.edges_seq()[k] == g1.edges_seq()[k]);
        assert(g1.edges_seq()[k].from < g1.node_names().len());
        assert(g2.node_names()[g1.edges_seq()[k].from as int] == g1.node_names()[g1.edges_seq()[k].from as int]);
        assert(g2.node_names()[g1.edges_seq()[k].to as int] == g1.node_names()[g1.edges_seq()[k].to as int]);
        assert(g2.edge_connects(k, a, b));
    }
    assert forall|n: Seq<char>| expanded(g1, cat, n) implies expanded(g2, cat, n) by {
        assert forall|j: int| 0 <= j < cat.record(n).dep_names().len() implies g2.has_node(
            #[trigger] cat.record(n).dep_names()[j],
        ) && g2.has_edge(n, cat.record(n).dep_names()[j]) by {
            assert(g1.has_node(cat.record(n).dep_names()[j]));
            assert(g1.has_edge(n, cat.record(n).dep_names()[j]));
        }
    }
}

/// The name of one catalog entry followed by its dependency names.
pub open spec fn names_of_entry(p: PackageView) -> Seq<Seq<char>> {
    seq![p.name] + p.dep_names()
}

/// Every name the catalog mentions: entry names and dependency names, in
/// entry order.
pub open spec fn all_index_names(entries: Seq<PackageView>) -> Seq<Seq<char>>
    decreases entries.len(),
{
    if entries.len() == 0 {
        Seq::empty()
    } else {
        all_index_names(entries.drop_last()) + names_of_entry(entries.last())
    }
}

proof fn lemma_all_index_names(entries: Seq<PackageView>, i: int)
    requires
        0 <= i < entries.len(),
    ensures
        all_index_names(entries).contains(entries[i].name),
        forall|j: int|
            0 <= j < entries[i].dep_names().len() ==> all_index_names(entries).contains(
                #[trigger] entries[i].dep_names()[j],
            ),
    decreases entries.len(),
{
    let all = all_index_names(entries);
    let rec = all_index_names(entries.drop_last());
    let noe = names_of_entry(entries.last());
    assert(all == rec + noe);
    if i == entries.len() - 1 {
        assert(noe[0] == entries[i].name);
        assert(all[rec.len() as int] == entries[i].name);
        assert(all.contains(entries[i].name));
        assert forall|j: int| 0 <= j < entries[i].dep_names().len() implies all.contains(
            #[trigger] entries[i].dep_names()[j],
        ) by {
            assert(noe[j + 1] == entries[i].dep_names()[j]);
            assert(all[rec.len() + j + 1] == entries[i].dep_names()[j]);
        }
    } else {
        lemma_all_index_names(entries.drop_last(), i);
        assert(entries.drop_last()[i] == entries[i]);
        let k = choose|k: int| 0 <= k < rec.len() && rec[k] == entries[i].name;
        assert(all[k] == entries[i].name);
        assert(all.contains(entries[i].name));
        assert forall|j: int| 0 <= j < entries[i].dep_names().len() implies all.contains(
            #[trigger] entries[i].dep_names()[j],
        ) by {
            assert(rec.contains(entries.drop_last()[i].dep_names()[j]));
            let k2 = choose|k2: int| 0 <= k2 < rec.len() && rec[k2] == entries[i].dep_names()[j];
            assert(all[k2] == entries[i].dep_names()[j]);
        }
    }
}

proof fn lemma_distinct_len_le(s: Seq<Seq<char>>, big: Set<Seq<char>>)
    requires
        forall|i: int, j: int| 0 <= i < j < s.len() ==> s[i] != s[j],
        forall|i: int| 0 <= i < s.len() ==> big.contains(#[trigger] s[i]),
        big.finite(),
    ensures
        s.len() <= big.len(),
{
    assert forall|i: int, j: int|
        0 <= i < s.len() && 0 <= j < s.len() && i != j implies s[i] != s[j] by {
        if i < j {
            assert(s[i] != s[j]);
        } else {
            assert(s[j] != s[i]);
        }
    }
    s.unique_seq_to_set();
    assert forall|x: Seq<char>| s.to_set().contains(x) implies big.contains(x) by {
        let i = choose|i: int| 0 <= i < s.len() && s[i] == x;
        assert(big.contains(s[i]));
    }
    vstd::set_lib::lemma_len_subset(s.to_set(), big);
}

/// Clone a list of strings, keeping its view.
pub(crate) fn clone_string_vec(v: &Vec<String>) -> (r: Vec<String>)
    ensures
        r.deep_view() == v.deep_view(),
{
    let r = v.clone();
    proof {
        assert forall|i: int| 0 <= i < r.deep_view().len() implies r.deep_view()[i]
            == v.deep_view()[i] by {
            assert(vstd::pervasive::cloned::<String>(v@[i], r@[i]));
        }
        assert(r.deep_view() =~= v.deep_view());
    }
    r
}

/// Expand one frontier entry: look its record up (failing with
/// `UnknownPackage` when it is absent), give it a node, and give every
/// listed dependency a node and an edge from it; a dependency whose node is
/// newly created is queued in `next` for the following round.
#[verifier::loop_isolation(false)]
#[verifier::rlimit(100)]
fn expand_entry(
    graph: &mut DependencyGraph,
    catalog: &Catalog,
    name: &String,
    next: &mut Vec<String>,
    Ghost(bset): Ghost<Set<Seq<char>>>,
    Ghost(s_names): Ghost<Set<Seq<char>>>,
) -> (r: Result<(), Error>)
    requires
        catalog.wf(),
        old(graph).wf(),
        s_names == all_index_names(catalog.entries()).to_set(),
        s_names.finite(),
        reaches(*catalog, bset, name@),
        forall|n: Seq<char>| #[trigger] old(graph).has_node(n) ==> reaches(*catalog, bset, n),
        forall|k: int|
            0 <= k < old(next).deep_view().len() ==> reaches(
                *catalog,
                bset,
                #[trigger] old(next).deep_view()[k],
            ),
        forall|k: int|
            0 <= k < old(graph).edges_seq().len() ==> #[trigger] edge_sound(
                *old(graph),
                *catalog,
                k,
            ),
        forall|ii: int|
            0 <= ii < old(graph).node_names().len() ==> s_names.contains(
                #[trigger] old(graph).node_names()[ii],
            ),
    ensures
        match r {
            Ok(()) => {
                &&& final(graph).wf()
                &&& old(graph).node_names().len() <= final(graph).node_names().len()
                &&& forall|ii: int|
                    0 <= ii < old(graph).node_names().len() ==> final(graph).node_names()[ii]
                        == #[trigger] old(graph).node_names()[ii]
                &&& old(graph).edges_seq().len() <= final(graph).edges_seq().len()
                &&& forall|k: int|
                    0 <= k < old(graph).edges_seq().len() ==> final(graph).edges_seq()[k]
                        == #[trigger] old(graph).edges_seq()[k]
                &&& final(graph).has_node(name@)
                &&& expanded(*final(graph), *catalog, name@)
                &&& forall|ii: int|
                    old(graph).node_names().len() <= ii < final(graph).node_names().len()
                        ==> (#[trigger] final(graph).node_names()[ii]) == name@ || final(next).deep_view().contains(final(graph).node_names()[ii])
                &&& old(next).deep_view().len() <= final(next).deep_view().len()
                &&& forall|k: int|
                    0 <= k < old(next).deep_view().len() ==> final(next).deep_view()[k]
                        == #[trigger] old(next).deep_view()[k]
                &&& forall|k: int|
                    0 <= k < final(next).deep_view().len() ==> reaches(
                        *catalog,
                        bset,
                        #[trigger] final(next).deep_view()[k],
                    )
                &&& final(graph).node_names().len() - old(graph).node_names().len() >= final(next).deep_view().len() - old(next).deep_view().len()
                &&& forall|n: Seq<char>| #[trigger]
                    final(graph).has_node(n) ==> reaches(*catalog, bset, n)
                &&& forall|k: int|
                    0 <= k < final(graph).edges_seq().len() ==> #[trigger] edge_sound(
                        *final(graph),
                        *catalog,
                        k,
                    )
                &&& forall|ii: int|
                    0 <= ii < final(graph).node_names().len() ==> s_names.contains(
                        #[trigger] final(graph).node_names()[ii],
                    )
                &&& final(graph).node_names().len() <= s_names.len()
            },
            Err(e) => match e {
                Error::UnknownPackage(n) => n@ == name@ && !catalog.contains_name(name@)
                    && *final(graph) == *old(graph) && *final(next) == *old(next),
            },
        },
{
    let pkg = match catalog.get(name) {
        Some(p) => p,
        None => {
            return Err(Error::UnknownPackage(name.clone()));
        },
    };
    let ghost g0 = *graph;
    let ghost next_in = next.deep_view();
    let a_index = graph.add_node_or_get_index(name.clone());
    let ghost aname = name@;
    proof {
        assert forall|ii: int|
            0 <= ii < g0.node_names().len() implies graph.node_names()[ii]
            == #[trigger] g0.node_names()[ii] by {}
        lemma_graph_grows(g0, *graph, *catalog);
        assert forall|n: Seq<char>| #[trigger] graph.has_node(n) implies reaches(
            *catalog,
            bset,
            n,
        ) by {
            if !g0.has_node(n) {
                let ii = choose|ii: int|
                    0 <= ii < graph.node_names().len() && graph.node_names()[ii] == n;
                assert(n == aname);
            }
        }
        assert(catalog.contains_name(aname));
        let ci = catalog.index_of(aname);
        lemma_all_index_names(catalog.entries(), ci);
        assert(s_names.contains(aname));
        assert forall|ii: int|
            0 <= ii < graph.node_names().len() implies s_names.contains(
            #[trigger] graph.node_names()[ii],
        ) by {
            if ii < g0.node_names().len() {
                assert(g0.node_names()[ii] == graph.node_names()[ii]);
            } else {
                assert(graph.node_names()[ii] == aname);
            }
        }
        lemma_distinct_len_le(graph.node_names(), s_names);
        assert forall|k: int|
            0 <= k < graph.edges_seq().len() implies #[trigger] edge_sound(
            *graph,
            *catalog,
            k,
        ) by {
            assert(edge_sound(g0, *catalog, k));
            assert(graph.edges_seq()[k] == g0.edges_seq()[k]);
            assert(g0.edges_seq()[k].from < g0.node_names().len());
            assert(g0.edges_seq()[k].to < g0.node_names().len());
        }
    }
    match &pkg.run_deps {
        Some(rd) => {
            proof {
                assert(pkg@.dep_names() == rd.deps.deep_view());
            }
            let nd = rd.deps.len();
            let mut d: usize = 0;
            while d < nd
                invariant
                    d <= nd,
                    nd == rd.deps.deep_view().len(),
                    graph.wf(),
                    a_index < graph.node_names().len(),
                    graph.node_names()[a_index as int] == aname,
                    g0.node_names().len() <= graph.node_names().len(),
                    forall|ii: int|
                        0 <= ii < g0.node_names().len() ==> graph.node_names()[ii]
                            == #[trigger] g0.node_names()[ii],
                    g0.edges_seq().len() <= graph.edges_seq().len(),
                    forall|k: int|
                        0 <= k < g0.edges_seq().len() ==> graph.edges_seq()[k]
                            == #[trigger] g0.edges_seq()[k],
                    forall|ii: int|
                        g0.node_names().len() <= ii < graph.node_names().len()
                            ==> (#[trigger] graph.node_names()[ii]) == aname
                            || next.deep_view().contains(graph.node_names()[ii]),
                    next_in.len() <= next.deep_view().len(),
                    forall|k: int|
                        0 <= k < next_in.len() ==> next.deep_view()[k] == #[trigger] next_in[k],
                    forall|k: int|
                        0 <= k < next.deep_view().len() ==> reaches(
                            *catalog,
                            bset,
                            #[trigger] next.deep_view()[k],
                        ),
                    graph.node_names().len() - g0.node_names().len() >= next.deep_view().len()
                        - next_in.len(),
                    forall|n: Seq<char>| #[trigger]
                        graph.has_node(n) ==> reaches(*catalog, bset, n),
                    forall|k: int|
                        0 <= k < graph.edges_seq().len() ==> #[trigger] edge_sound(
                            *graph,
                            *catalog,
                            k,
                        ),
                    forall|ii: int|
                        0 <= ii < graph.node_names().len() ==> s_names.contains(
                            #[trigger] graph.node_names()[ii],
                        ),
                    graph.node_names().len() <= s_names.len(),
                    forall|jj: int|
                        0 <= jj < d ==> graph.has_node(#[trigger] rd.deps.deep_view()[jj])
                            && graph.has_edge(aname, rd.deps.deep_view()[jj]),
                decreases nd - d,
            {
                let ghost gd = *graph;
                let ghost next0 = next.deep_view();
                let dep_ref = &rd.deps[d].value;
                let ghost dname = dep_ref@;
                proof {
                    assert(rd.deps.deep_view()[d as int] == dname);
                    assert(catalog.record(aname).dep_names().contains(dname));
                }
                let child = match graph.get_index(dep_ref) {
                    Some(ci) => ci,
                    None => {
                        next.push(dep_ref.clone());
                        let ci = graph.add_node_or_get_index(dep_ref.clone());
                        proof {
                            assert(next.deep_view() =~= next0.push(dname));
                        }
                        ci
                    },
                };
                proof {
                    assert forall|ii: int|
                        0 <= ii < gd.node_names().len() implies graph.node_names()[ii]
                        == #[trigger] gd.node_names()[ii] by {}
                    lemma_graph_grows(gd, *graph, *catalog);
                    assert(child < graph.node_names().len());
                    assert(graph.node_names()[child as int] == dname);
                    assert(graph.node_names()[a_index as int] == aname);
                    assert(reaches(*catalog, bset, aname));
                    lemma_reaches_step(*catalog, bset, aname, dname);
                    assert forall|n: Seq<char>| #[trigger] graph.has_node(n) implies reaches(
                        *catalog,
                        bset,
                        n,
                    ) by {
                        if !gd.has_node(n) {
                            let ii = choose|ii: int|
                                0 <= ii < graph.node_names().len() && graph.node_names()[ii] == n;
                            assert(n == dname);
                        }
                    }
                    let ci2 = catalog.index_of(aname);
                    lemma_all_index_names(catalog.entries(), ci2);
                    assert(catalog.entries()[ci2].dep_names().contains(dname));
                    let jx = choose|jx: int|
                        0 <= jx < catalog.entries()[ci2].dep_names().len()
                            && catalog.entries()[ci2].dep_names()[jx] == dname;
                    assert(s_names.contains(catalog.entries()[ci2].dep_names()[jx]));
                    assert(s_names.contains(dname));
                    assert forall|ii: int|
                        0 <= ii < graph.node_names().len() implies s_names.contains(
                        #[trigger] graph.node_names()[ii],
                    ) by {
                        if ii < gd.node_names().len() {
                            assert(gd.node_names()[ii] == graph.node_names()[ii]);
                        } else {
                            assert(graph.node_names()[ii] == dname);
                        }
                    }
                    lemma_distinct_len_le(graph.node_names(), s_names);
                    assert forall|k: int|
                        0 <= k < graph.edges_seq().len() implies #[trigger] edge_sound(
                        *graph,
                        *catalog,
                        k,
                    ) by {
                        assert(edge_sound(gd, *catalog, k));
                        assert(graph.edges_seq()[k] == gd.edges_seq()[k]);
                        assert(gd.edges_seq()[k].from < gd.node_names().len());
                        assert(gd.edges_seq()[k].to < gd.node_names().len());
                    }
                }
                let ghost g2 = *graph;
                graph.add_edge(a_index, child);
                proof {
                    assert forall|ii: int|
                        0 <= ii < g2.node_names().len() implies graph.node_names()[ii]
                        == #[trigger] g2.node_names()[ii] by {}
                    assert forall|k: int|
                        0 <= k < g2.edges_seq().len() implies graph.edges_seq()[k]
                        == #[trigger] g2.edges_seq()[k] by {}
                    lemma_graph_grows(g2, *graph, *catalog);
                    let newk = g2.edges_seq().len() as int;
                    assert(graph.edges_seq()[newk].from == a_index);
                    assert(graph.edges_seq()[newk].to == child);
                    assert(graph.node_names()[a_index as int] == aname);
                    assert(graph.node_names()[child as int] == dname);
                    assert(edge_sound(*graph, *catalog, newk));
                    assert forall|k: int|
                        0 <= k < graph.edges_seq().len() implies #[trigger] edge_sound(
                        *graph,
                        *catalog,
                        k,
                    ) by {
                        if k < newk {
                            assert(edge_sound(g2, *catalog, k));
                            assert(graph.edges_seq()[k] == g2.edges_seq()[k]);
                            assert(g2.edges_seq()[k].from < g2.node_names().len());
                            assert(g2.edges_seq()[k].to < g2.node_names().len());
                        }
                    }
                    assert(graph.edge_connects(newk, aname, dname));
                    assert(graph.has_edge(aname, dname));
                    assert forall|n: Seq<char>| #[trigger] graph.has_node(n) implies reaches(
                        *catalog,
                        bset,
                        n,
                    ) by {
                        let ii = choose|ii: int|
                            0 <= ii < graph.node_names().len() && graph.node_names()[ii] == n;
                        assert(g2.node_names()[ii] == n);
                        assert(g2.has_node(n));
                    }
                    assert forall|ii: int|
                        g0.node_names().len() <= ii < graph.node_names().len() implies (#[trigger] graph.node_names()[ii])
                        == aname || next.deep_view().contains(graph.node_names()[ii]) by {
                        if ii < gd.node_names().len() {
                            assert(gd.node_names()[ii] == graph.node_names()[ii]);
                            if next0.contains(gd.node_names()[ii]) {
                                let k = choose|k: int|
                                    0 <= k < next0.len() && next0[k] == gd.node_names()[ii];
                                assert(next.deep_view()[k] == gd.node_names()[ii]);
                            }
                        } else {
                            assert(graph.node_names()[ii] == dname);
                            assert(next.deep_view()[next0.len() as int] == dname);
                        }
                    }
                    assert forall|jj: int| 0 <= jj < d + 1 implies graph.has_node(
                        #[trigger] rd.deps.deep_view()[jj],
                    ) && graph.has_edge(aname, rd.deps.deep_view()[jj]) by {
                        if jj < d {
                            assert(gd.has_node(rd.deps.deep_view()[jj]));
                            assert(gd.has_edge(aname, rd.deps.deep_view()[jj]));
                            assert(g2.has_node(rd.deps.deep_view()[jj]));
                            assert(g2.has_edge(aname, rd.deps.deep_view()[jj]));
                        } else {
                            assert(rd.deps.deep_view()[jj] == dname);
                        }
                    }
                }
                d = d + 1;
            }
            proof {
                assert(expanded(*graph, *catalog, aname)) by {
                    assert forall|j: int|
                        0 <= j < catalog.record(aname).dep_names().len() implies graph.has_node(
                        #[trigger] catalog.record(aname).dep_names()[j],
                    ) && graph.has_edge(aname, catalog.record(aname).dep_names()[j]) by {
                        assert(catalog.record(aname).dep_names()[j] == rd.deps.deep_view()[j]);
                    }
                }
            }
        },
        None => {
            proof {
                assert(pkg@.dep_names() =~= Seq::<Seq<char>>::empty());
                assert(expanded(*graph, *catalog, aname));
            }
        },
    }
    Ok(())
}

/// Build the dependency-closure graph for a bootstrap set of names.
///
/// The frontier starts as the bootstrap list and is expanded in rounds:
/// each frontier name is looked up (failing with `UnknownPackage` if it is
/// absent), given a node, and its listed dependencies are given nodes and
/// edges; a dependency joins the next frontier only when its node was newly
/// created, so cycles and self-loops terminate. On success the node set is
/// exactly the set of names reachable from the bootstrap set, and the edges
/// are exactly the listed dependencies of those nodes.
#[verifier::loop_isolation(false)]
#[verifier::rlimit(100)]
pub fn build(catalog: &Catalog, bootstrap: &Vec<String>) -> (r: Result<DependencyGraph, Error>)
    requires
        catalog.wf(),
    ensures
        match r {
            Ok(g) => {
                &&& g.wf()
                &&& forall|n: Seq<char>| #[trigger]
                    g.has_node(n) ==> reaches(*catalog, bootstrap.deep_view().to_set(), n)
                &&& forall|n: Seq<char>| #[trigger]
                    reaches(*catalog, bootstrap.deep_view().to_set(), n) ==> g.has_node(n)
                &&& forall|n: Seq<char>| #[trigger] g.has_node(n) ==> catalog.contains_name(n)
                &&& forall|a: Seq<char>, b: Seq<char>| #[trigger]
                    g.has_edge(a, b) ==> g.has_node(a) && g.has_node(b) && catalog.contains_name(a)
                        && catalog.record(a).dep_names().contains(b)
                &&& forall|a: Seq<char>, b: Seq<char>|
                    g.has_node(a) && #[trigger] catalog.record(a).dep_names().contains(b)
                        ==> #[trigger] g.has_edge(a, b)
            },
            Err(e) => match e {
                Error::UnknownPackage(n) => reaches(*catalog, bootstrap.deep_view().to_set(), n@)
                    && !catalog.contains_name(n@),
            },
        },
{
    let ghost bset = bootstrap.deep_view().to_set();
    let ghost s_names = all_index_names(catalog.entries()).to_set();
    proof {
        vstd::seq_lib::seq_to_set_is_finite::<Seq<char>>(all_index_names(catalog.entries()));
    }
    let mut graph = DependencyGraph::new();
    let mut processing = clone_string_vec(bootstrap);
    proof {
        assert forall|k: int| 0 <= k < processing.deep_view().len() implies reaches(
            *catalog,
            bset,
            #[trigger] processing.deep_view()[k],
        ) by {
            assert(bootstrap.deep_view().contains(processing.deep_view()[k]));
            assert(bset.contains(processing.deep_view()[k]));
            lemma_reaches_member(*catalog, bset, processing.deep_view()[k]);
        }
        assert forall|n: Seq<char>| #[trigger] bset.contains(n) implies graph.has_node(n)
            || processing.deep_view().contains(n) by {
            assert(bootstrap.deep_view().contains(n));
        }
    }
    while processing.len() != 0
        invariant
            graph.wf(),
            forall|n: Seq<char>| #[trigger] graph.has_node(n) ==> reaches(*catalog, bset, n),
            forall|k: int|
                0 <= k < processing.deep_view().len() ==> reaches(
                    *catalog,
                    bset,
                    #[trigger] processing.deep_view()[k],
                ),
            forall|n: Seq<char>| #[trigger]
                bset.contains(n) ==> graph.has_node(n) || processing.deep_view().contains(n),
            forall|ii: int|
                0 <= ii < graph.node_names().len() ==> processing.deep_view().contains(
                    #[trigger] graph.node_names()[ii],
                ) || expanded(graph, *catalog, graph.node_names()[ii]),
            forall|k: int|
                0 <= k < graph.edges_seq().len() ==> #[trigger] edge_sound(graph, *catalog, k),
            forall|ii: int|
                0 <= ii < graph.node_names().len() ==> s_names.contains(
                    #[trigger] graph.node_names()[ii],
                ),
            graph.node_names().len() <= s_names.len(),
        decreases s_names.len() - graph.node_names().len(), processing@.len(),
    {
        let ghost round_graph = graph;
        let ghost round_proc = processing.deep_view();
        let mut next: Vec<String> = Vec::new();
        let n_proc = processing.len();
        let mut i: usize = 0;
        proof {
            assert(next.deep_view() =~= Seq::<Seq<char>>::empty());
        }
        while i < n_proc
            invariant
                i <= n_proc,
                graph.wf(),
                forall|n: Seq<char>| #[trigger] graph.has_node(n) ==> reaches(*catalog, bset, n),
                forall|k: int|
                    0 <= k < next.deep_view().len() ==> reaches(
                        *catalog,
                        bset,
                        #[trigger] next.deep_view()[k],
                    ),
                forall|n: Seq<char>| #[trigger]
                    bset.contains(n) ==> graph.has_node(n) || (exists|j: int|
                        i <= j < round_proc.len() && round_proc[j] == n),
                forall|ii: int|
                    0 <= ii < graph.node_names().len() ==> (exists|j: int|
                        i <= j < round_proc.len() && round_proc[j]
                            == #[trigger] graph.node_names()[ii]) || next.deep_view().contains(
                        graph.node_names()[ii],
                    ) || expanded(graph, *catalog, graph.node_names()[ii]),
                forall|k: int|
                    0 <= k < graph.edges_seq().len() ==> #[trigger] edge_sound(graph, *catalog, k),
                forall|ii: int|
                    0 <= ii < graph.node_names().len() ==> s_names.contains(
                        #[trigger] graph.node_names()[ii],
                    ),
                graph.node_names().len() <= s_names.len(),
                graph.node_names().len() >= round_graph.node_names().len()
                    + next.deep_view().len(),
            decreases n_proc - i,
        {
            let ghost g0 = graph;
            let ghost next0 = next.deep_view();
            let name_ref = &processing[i];
            proof {
                assert(round_proc[i as int] == name_ref@);
            }
            match expand_entry(&mut graph, catalog, name_ref, &mut next, Ghost(bset), Ghost(s_names)) {
                Ok(()) => {},
                Err(e) => {
                    return Err(e);
                },
            }
            let ghost aname = name_ref@;
            proof {
                lemma_graph_grows(g0, graph, *catalog);
                assert forall|ii: int|
                    0 <= ii < graph.node_names().len() implies (exists|j: int|
                    i + 1 <= j < round_proc.len() && round_proc[j]
                        == #[trigger] graph.node_names()[ii]) || next.deep_view().contains(
                    graph.node_names()[ii],
                ) || expanded(graph, *catalog, graph.node_names()[ii]) by {
                    let n = graph.node_names()[ii];
                    if n == aname {
                        assert(expanded(graph, *catalog, n));
                    } else if ii < g0.node_names().len() {
                        assert(g0.node_names()[ii] == n);
                        if next0.contains(n) {
                            let k = choose|k: int| 0 <= k < next0.len() && next0[k] == n;
                            assert(next.deep_view()[k] == n);
                        } else if exists|j: int| i <= j < round_proc.len() && round_proc[j] == n {
                            let j = choose|j: int|
                                i <= j < round_proc.len() && round_proc[j] == n;
                            assert(j != i);
                            assert(i + 1 <= j < round_proc.len() && round_proc[j] == n);
                        }
                    } else {
                        assert(next.deep_view().contains(n));
                    }
                }
                assert forall|n: Seq<char>| #[trigger] bset.contains(n) implies graph.has_node(n)
                    || (exists|j: int| i + 1 <= j < round_proc.len() && round_proc[j] == n) by {
                    if !graph.has_node(n) {
                        assert(!g0.has_node(n));
                        let j = choose|j: int| i <= j < round_proc.len() && round_proc[j] == n;
                        assert(n != aname);
                        assert(j != i);
                        assert(i + 1 <= j < round_proc.len() && round_proc[j] == n);
                    }
                }
            }
            i = i + 1;
        }
        processing = next;
    }
    proof {
        let nodes_set = Set::new(|n: Seq<char>| graph.has_node(n));
        assert(closed_node_set(*catalog, nodes_set)) by {
            assert forall|n: Seq<char>| #[trigger] nodes_set.contains(n) implies catalog.contains_name(
                n,
            ) && (forall|j: int|
                0 <= j < catalog.record(n).dep_names().len() ==> nodes_set.contains(
                    #[trigger] catalog.record(n).dep_names()[j],
                )) by {
                let ii = choose|ii: int|
                    0 <= ii < graph.node_names().len() && graph.node_names()[ii] == n;
                assert(!processing.deep_view().contains(graph.node_names()[ii]));
                assert(expanded(graph, *catalog, n));
            }
        }
        assert forall|n: Seq<char>| #[trigger] reaches(*catalog, bset, n) implies graph.has_node(
            n,
        ) by {
            assert forall|m: Seq<char>| #[trigger] bset.contains(m) implies nodes_set.contains(
                m,
            ) by {
                assert(!processing.deep_view().contains(m));
            }
            lemma_reaches_in_closed(*catalog, bset, nodes_set, n);
        }
        assert forall|n: Seq<char>| #[trigger] graph.has_node(n) implies catalog.contains_name(
            n,
        ) by {
            let ii = choose|ii: int|
                0 <= ii < graph.node_names().len() && graph.node_names()[ii] == n;
            assert(!processing.deep_view().contains(graph.node_names()[ii]));
            assert(expanded(graph, *catalog, n));
        }
        assert forall|a: Seq<char>, b: Seq<char>| #[trigger] graph.has_edge(a, b) implies graph.has_node(
            a,
        ) && graph.has_node(b) && catalog.contains_name(a) && catalog.record(
            a,
        ).dep_names().contains(b) by {
            let k = choose|k: int|
                0 <= k < graph.edges_seq().len() && graph.edge_connects(k, a, b);
            assert(edge_sound(graph, *catalog, k));
            graph.lemma_node_at(graph.edges_seq()[k].from as int);
            graph.lemma_node_at(graph.edges_seq()[k].to as int);
        }
        assert forall|a: Seq<char>, b: Seq<char>|
            graph.has_node(a) && #[trigger] catalog.record(a).dep_names().contains(b) implies #[trigger] graph.has_edge(
            a,
            b,
        ) by {
            let ii = choose|ii: int|
                0 <= ii < graph.node_names().len() && graph.node_names()[ii] == a;
            assert(!processing.deep_view().contains(graph.node_names()[ii]));
            assert(expanded(graph, *catalog, a));
            let j = choose|j: int|
                0 <= j < catalog.record(a).dep_names().len() && catalog.record(a).dep_names()[j]
                    == b;
            assert(graph.has_edge(a, catalog.record(a).dep_names()[j]));
        }
    }
    Ok(graph)
}

/// A deterministic total ordering of the graph's nodes: every node name
/// exactly once, in node-index order. Fetching one package never requires
/// another to have been fetched first, so a dependency-respecting order is
/// not needed; cycles in the graph are therefore harmless here, and the
/// insertion order is total, stable and reproducible.
pub fn sequence(graph: &DependencyGraph) -> (r: Vec<String>)
    requires
        graph.wf(),
    ensures
        r.deep_view() == graph.node_names(),
        r.deep_view().no_duplicates(),
        forall|n: Seq<char>| r.deep_view().contains(n) <==> graph.has_node(n),
{
    let r = clone_string_vec(&graph.names);
    proof {
        assert forall|i: int, j: int|
            0 <= i < r.deep_view().len() && 0 <= j < r.deep_view().len() && i != j implies r.deep_view()[i]
            != r.deep_view()[j] by {
            if i < j {
                assert(graph.node_names()[i] != graph.node_names()[j]);
            } else {
                assert(graph.node_names()[j] != graph.node_names()[i]);
            }
        }
        assert forall|n: Seq<char>| r.deep_view().contains(n) implies graph.has_node(n) by {
            let i = choose|i: int| 0 <= i < r.deep_view().len() && r.deep_view()[i] == n;
            assert(graph.node_names()[i] == n);
        }
        assert forall|n: Seq<char>| graph.has_node(n) implies r.deep_view().contains(n) by {
            let i = choose|i: int|
                0 <= i < graph.node_names().len() && graph.node_names()[i] == n;
            assert(r.deep_view()[i] == n);
        }
    }
    r
}

} // verus!
