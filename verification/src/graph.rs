//! A directed graph whose nodes are known by name.
//!
//! The graph keeps its nodes and its edges in insertion order. Node names are
//! not required to be unique. An edge holds its own copies of the two nodes it
//! joins, so in the model an edge is the pair of their names.

use vstd::prelude::*;

verus! {

/// Why an operation on a graph was refused.
#[derive(Debug, Clone, Copy, PartialEq, Eq, Structural)]
pub enum GraphError {
    /// An edge was to join a name that no node of the graph has.
    InvalidNodes,
    /// No node of the graph has the name that was to be deleted.
    NodeNotFound,
    /// No edge of the graph joins the two names in that direction.
    EdgeNotFound,
}

impl GraphError {
    /// The text of the error.
    pub open spec fn message_view(self) -> Seq<char> {
        match self {
            GraphError::InvalidNodes => "Invalid Nodes"@,
            GraphError::NodeNotFound => "Node not found"@,
            GraphError::EdgeNotFound => "Edge not found"@,
        }
    }

    /// The text of the error as an owned string.
    pub fn message(&self) -> (text: String)
        ensures
            text@ == self.message_view(),
    {
        match self {
            GraphError::InvalidNodes => "Invalid Nodes".to_owned(),
            GraphError::NodeNotFound => "Node not found".to_owned(),
            GraphError::EdgeNotFound => "Edge not found".to_owned(),
        }
    }
}

/// A named vertex. Two nodes are the same vertex when their names are equal.
#[derive(PartialEq)]
pub struct Node {
    name: String,
}

impl View for Node {
    type V = Seq<char>;

    /// The node's name.
    closed spec fn view(&self) -> Seq<char> {
        self.name@
    }
}

impl Node {
    /// The node's name.
    pub fn name(&self) -> (name: &str)
        ensures
            name@ == self@,
    {
        self.name.as_str()
    }

    fn duplicate(&self) -> (copy: Node)
        ensures
            copy@ == self@,
    {
        Node { name: self.name.clone() }
    }
}

/// A directed connection from one named vertex to another.
#[derive(PartialEq)]
pub struct Edge {
    start: Node,
    end: Node,
}

impl View for Edge {
    type V = (Seq<char>, Seq<char>);

    /// The names of the start node and of the end node.
    closed spec fn view(&self) -> (Seq<char>, Seq<char>) {
        (self.start@, self.end@)
    }
}

impl Edge {
    /// The node the edge leaves.
    pub fn start(&self) -> (node: &Node)
        ensures
            node@ == self@.0,
    {
        &self.start
    }

    /// The node the edge enters.
    pub fn end(&self) -> (node: &Node)
        ensures
            node@ == self@.1,
    {
        &self.end
    }

    fn duplicate(&self) -> (copy: Edge)
        ensures
            copy@ == self@,
    {
        Edge { start: self.start.duplicate(), end: self.end.duplicate() }
    }
}

/// The names of a run of nodes, in the same order.
pub open spec fn node_names(nodes: Seq<Node>) -> Seq<Seq<char>> {
    Seq::new(nodes.len(), |i: int| nodes[i]@)
}

/// The name pairs of a run of edges, in the same order.
pub open spec fn edge_pairs(edges: Seq<Edge>) -> Seq<(Seq<char>, Seq<char>)> {
    Seq::new(edges.len(), |i: int| edges[i]@)
}

/// Holds of every node name but `name`.
pub open spec fn is_not_named(name: Seq<char>) -> spec_fn(Seq<char>) -> bool {
    |n: Seq<char>| n != name
}

/// Holds of every edge that neither leaves nor enters a node called `name`.
pub open spec fn avoids(name: Seq<char>) -> spec_fn((Seq<char>, Seq<char>)) -> bool {
    |e: (Seq<char>, Seq<char>)| e.0 != name && e.1 != name
}

/// Holds of every edge but those from `start` to `end`.
pub open spec fn is_not_pair(start: Seq<char>, end: Seq<char>) -> spec_fn(
    (Seq<char>, Seq<char>),
) -> bool {
    |e: (Seq<char>, Seq<char>)| e.0 != start || e.1 != end
}

/// Every edge of `edges` leaves and enters a name that occurs in `nodes`.
pub open spec fn joined(nodes: Seq<Seq<char>>, edges: Seq<(Seq<char>, Seq<char>)>) -> bool {
    forall|i: int|
        0 <= i < edges.len() ==> nodes.contains((#[trigger] edges[i]).0) && nodes.contains(
            edges[i].1,
        )
}

/// Taking away the nodes called `name` together with the edges that touch
/// that name leaves no edge without its nodes, and nothing of that name.
pub proof fn lemma_delete_node_keeps_joined(
    nodes: Seq<Seq<char>>,
    edges: Seq<(Seq<char>, Seq<char>)>,
    name: Seq<char>,
)
    ensures
        !nodes.filter(is_not_named(name)).contains(name),
        forall|i: int|
            0 <= i < edges.filter(avoids(name)).len() ==> (#[trigger] edges.filter(
                avoids(name),
            )[i]).0 != name && edges.filter(avoids(name))[i].1 != name,
        joined(nodes, edges) ==> joined(
            nodes.filter(is_not_named(name)),
            edges.filter(avoids(name)),
        ),
{
    let kept_nodes = nodes.filter(is_not_named(name));
    let kept_edges = edges.filter(avoids(name));
    assert forall|i: int| 0 <= i < kept_nodes.len() implies kept_nodes[i] != name by {
        nodes.lemma_filter_pred(is_not_named(name), i);
    }
    assert forall|i: int| 0 <= i < kept_edges.len() implies (#[trigger] kept_edges[i]).0 != name
        && kept_edges[i].1 != name by {
        edges.lemma_filter_pred(avoids(name), i);
    }
    if joined(nodes, edges) {
        assert forall|i: int| 0 <= i < kept_edges.len() implies kept_nodes.contains(
            (#[trigger] kept_edges[i]).0,
        ) && kept_nodes.contains(kept_edges[i].1) by {
            let e = kept_edges[i];
            assert(kept_edges.contains(e));
            edges.lemma_filter_contains_rev(avoids(name), e);
            let k = choose|k: int| 0 <= k < edges.len() && edges[k] == e;
            assert(nodes.contains(edges[k].0) && nodes.contains(edges[k].1));
            let a = choose|a: int| 0 <= a < nodes.len() && nodes[a] == e.0;
            let b = choose|b: int| 0 <= b < nodes.len() && nodes[b] == e.1;
            nodes.lemma_filter_contains(is_not_named(name), a);
            nodes.lemma_filter_contains(is_not_named(name), b);
        }
    }
}

/// Taking away the edges from `start` to `end` leaves no such edge and no
/// edge without its nodes.
pub proof fn lemma_delete_edge_keeps_joined(
    nodes: Seq<Seq<char>>,
    edges: Seq<(Seq<char>, Seq<char>)>,
    start: Seq<char>,
    end: Seq<char>,
)
    ensures
        !edges.filter(is_not_pair(start, end)).contains((start, end)),
        joined(nodes, edges) ==> joined(nodes, edges.filter(is_not_pair(start, end))),
{
    let kept = edges.filter(is_not_pair(start, end));
    assert forall|i: int| 0 <= i < kept.len() implies kept[i] != (start, end) by {
        edges.lemma_filter_pred(is_not_pair(start, end), i);
    }
    if joined(nodes, edges) {
        assert forall|i: int| 0 <= i < kept.len() implies nodes.contains((#[trigger] kept[i]).0)
            && nodes.contains(kept[i].1) by {
            let e = kept[i];
            assert(kept.contains(e));
            edges.lemma_filter_contains_rev(is_not_pair(start, end), e);
            let k = choose|k: int| 0 <= k < edges.len() && edges[k] == e;
            assert(nodes.contains(edges[k].0) && nodes.contains(edges[k].1));
        }
    }
}

/// Filtering one element more either appends that element or changes nothing.
proof fn lemma_filter_step<A>(s: Seq<A>, i: int, pred: spec_fn(A) -> bool)
    requires
        0 <= i < s.len(),
    ensures
        s.subrange(0, i + 1).filter(pred) == if pred(s[i]) {
            s.subrange(0, i).filter(pred).push(s[i])
        } else {
            s.subrange(0, i).filter(pred)
        },
{
    reveal(Seq::filter);
    assert(s.subrange(0, i + 1).drop_last() =~= s.subrange(0, i));
}

proof fn lemma_filter_nothing<A>(s: Seq<A>, pred: spec_fn(A) -> bool)
    ensures
        s.subrange(0, 0).filter(pred) == Seq::<A>::empty(),
{
    reveal(Seq::filter);
    assert(s.subrange(0, 0) =~= Seq::<A>::empty());
}

/// Whether some node of `nodes` is called `name`.
fn any_node_named(nodes: &Vec<Node>, name: &String) -> (found: bool)
    ensures
        found == node_names(nodes@).contains(name@),
{
    let mut i: usize = 0;
    while i < nodes.len()
        invariant
            i <= nodes.len(),
            forall|j: int| 0 <= j < i ==> node_names(nodes@)[j] != name@,
        decreases nodes.len() - i,
    {
        if nodes[i].name == *name {
            assert(node_names(nodes@)[i as int] == name@);
            return true;
        }
        i += 1;
    }
    false
}

/// Whether some edge of `edges` goes from `start` to `end`.
fn any_edge_between(edges: &Vec<Edge>, start: &String, end: &String) -> (found: bool)
    ensures
        found == edge_pairs(edges@).contains((start@, end@)),
{
    let mut i: usize = 0;
    while i < edges.len()
        invariant
            i <= edges.len(),
            forall|j: int| 0 <= j < i ==> edge_pairs(edges@)[j] != (start@, end@),
        decreases edges.len() - i,
    {
        if edges[i].start.name == *start && edges[i].end.name == *end {
            assert(edge_pairs(edges@)[i as int] == (start@, end@));
            return true;
        }
        i += 1;
    }
    false
}

/// Copies of the nodes that are not called `name`, in their order.
fn nodes_not_named(nodes: &Vec<Node>, name: &String) -> (kept: Vec<Node>)
    ensures
        node_names(kept@) == node_names(nodes@).filter(is_not_named(name@)),
{
    let mut kept: Vec<Node> = Vec::new();
    let mut i: usize = 0;
    proof {
        lemma_filter_nothing(node_names(nodes@), is_not_named(name@));
        assert(node_names(kept@) =~= Seq::empty());
    }
    while i < nodes.len()
        invariant
            i <= nodes.len(),
            node_names(kept@) == node_names(nodes@).subrange(0, i as int).filter(
                is_not_named(name@),
            ),
        decreases nodes.len() - i,
    {
        proof {
            lemma_filter_step(node_names(nodes@), i as int, is_not_named(name@));
        }
        let ghost before = kept@;
        if !(nodes[i].name == *name) {
            kept.push(nodes[i].duplicate());
            assert(node_names(kept@) =~= node_names(before).push(nodes@[i as int]@));
        }
        i += 1;
    }
    assert(node_names(nodes@).subrange(0, nodes.len() as int) =~= node_names(nodes@));
    kept
}

/// Copies of the edges that neither leave nor enter a node called `name`, in
/// their order.
fn edges_avoiding(edges: &Vec<Edge>, name: &String) -> (kept: Vec<Edge>)
    ensures
        edge_pairs(kept@) == edge_pairs(edges@).filter(avoids(name@)),
{
    let mut kept: Vec<Edge> = Vec::new();
    let mut i: usize = 0;
    proof {
        lemma_filter_nothing(edge_pairs(edges@), avoids(name@));
        assert(edge_pairs(kept@) =~= Seq::empty());
    }
    while i < edges.len()
        invariant
            i <= edges.len(),
            edge_pairs(kept@) == edge_pairs(edges@).subrange(0, i as int).filter(avoids(name@)),
        decreases edges.len() - i,
    {
        proof {
            lemma_filter_step(edge_pairs(edges@), i as int, avoids(name@));
        }
        let ghost before = kept@;
        if !(edges[i].start.name == *name) && !(edges[i].end.name == *name) {
            kept.push(edges[i].duplicate());
            assert(edge_pairs(kept@) =~= edge_pairs(before).push(edges@[i as int]@));
        }
        i += 1;
    }
    assert(edge_pairs(edges@).subrange(0, edges.len() as int) =~= edge_pairs(edges@));
    kept
}

/// Copies of the edges that do not go from `start` to `end`, in their order.
fn edges_not_between(edges: &Vec<Edge>, start: &String, end: &String) -> (kept: Vec<Edge>)
    ensures
        edge_pairs(kept@) == edge_pairs(edges@).filter(is_not_pair(start@, end@)),
{
    let mut kept: Vec<Edge> = Vec::new();
    let mut i: usize = 0;
    proof {
        lemma_filter_nothing(edge_pairs(edges@), is_not_pair(start@, end@));
        assert(edge_pairs(kept@) =~= Seq::empty());
    }
    while i < edges.len()
        invariant
            i <= edges.len(),
            edge_pairs(kept@) == edge_pairs(edges@).subrange(0, i as int).filter(
                is_not_pair(start@, end@),
            ),
        decreases edges.len() - i,
    {
        proof {
            lemma_filter_step(edge_pairs(edges@), i as int, is_not_pair(start@, end@));
        }
        let ghost before = kept@;
        if !(edges[i].start.name == *start) || !(edges[i].end.name == *end) {
            kept.push(edges[i].duplicate());
            assert(edge_pairs(kept@) =~= edge_pairs(before).push(edges@[i as int]@));
        }
        i += 1;
    }
    assert(edge_pairs(edges@).subrange(0, edges.len() as int) =~= edge_pairs(edges@));
    kept
}

/// A named directed graph.
pub struct GraphStruct {
    name: String,
    nodes: Vec<Node>,
    edges: Vec<Edge>,
}

impl GraphStruct {
    /// The graph's name.
    pub closed spec fn name_view(&self) -> Seq<char> {
        self.name@
    }

    /// The names of the graph's nodes, in insertion order.
    pub closed spec fn nodes_view(&self) -> Seq<Seq<char>> {
        node_names(self.nodes@)
    }

    /// The graph's edges as pairs of start name and end name, in insertion order.
    pub closed spec fn edges_view(&self) -> Seq<(Seq<char>, Seq<char>)> {
        edge_pairs(self.edges@)
    }

    /// No edge dangles: every edge leaves and enters a name that some node
    /// of the graph has. It holds of a new graph and every operation keeps it.
    pub open spec fn well_joined(&self) -> bool {
        joined(self.nodes_view(), self.edges_view())
    }

    /// A graph called `name` without nodes or edges.
    pub fn new(name: String) -> (graph: Self)
        ensures
            graph.name_view() == name@,
            graph.nodes_view() == Seq::<Seq<char>>::empty(),
            graph.edges_view() == Seq::<(Seq<char>, Seq<char>)>::empty(),
            graph.well_joined(),
    {
        let graph = Self { name: name, nodes: Vec::new(), edges: Vec::new() };
        assert(graph.nodes_view() =~= Seq::empty());
        assert(graph.edges_view() =~= Seq::empty());
        graph
    }

    /// The graph's name.
    pub fn get_name(&self) -> (name: &str)
        ensures
            name@ == self.name_view(),
    {
        self.name.as_str()
    }

    /// The graph's nodes, in insertion order.
    pub fn nodes(&self) -> (nodes: &Vec<Node>)
        ensures
            node_names(nodes@) == self.nodes_view(),
    {
        &self.nodes
    }

    /// The graph's edges, in insertion order.
    pub fn edges(&self) -> (edges: &Vec<Edge>)
        ensures
            edge_pairs(edges@) == self.edges_view(),
    {
        &self.edges
    }

    /// Appends a node called `name`. A name that is already there is not
    /// refused: the graph then has one more node of that name.
    pub fn add_node(&mut self, name: String)
        ensures
            final(self).nodes_view() == old(self).nodes_view().push(name@),
            final(self).edges_view() == old(self).edges_view(),
            final(self).name_view() == old(self).name_view(),
            old(self).well_joined() ==> final(self).well_joined(),
    {
        self.nodes.push(Node { name: name });
        assert(node_names(self.nodes@) =~= node_names(old(self).nodes@).push(name@));
        proof {
            let before = old(self).nodes_view();
            let after = self.nodes_view();
            assert forall|n: Seq<char>| before.contains(n) implies after.contains(n) by {
                let k = choose|k: int| 0 <= k < before.len() && before[k] == n;
                assert(after[k] == n);
            }
        }
    }

    /// Appends an edge from the first node called `start` to the first node
    /// called `end`. Where the graph lacks a node of either name it is left
    /// as it was and the call fails with `InvalidNodes`.
    pub fn add_edge(&mut self, start: &str, end: &str) -> (result: Result<(), GraphError>)
        ensures
            final(self).name_view() == old(self).name_view(),
            final(self).nodes_view() == old(self).nodes_view(),
            old(self).nodes_view().contains(start@) && old(self).nodes_view().contains(end@) ==> {
                &&& result == Ok::<(), GraphError>(())
                &&& final(self).edges_view() == old(self).edges_view().push((start@, end@))
            },
            !(old(self).nodes_view().contains(start@) && old(self).nodes_view().contains(end@))
                ==> {
                &&& result == Err::<(), GraphError>(GraphError::InvalidNodes)
                &&& final(self).edges_view() == old(self).edges_view()
            },
            old(self).well_joined() ==> final(self).well_joined(),
    {
        let start_name: String = start.to_owned();
        let end_name: String = end.to_owned();
        if any_node_named(&self.nodes, &start_name) && any_node_named(&self.nodes, &end_name) {
            self.edges.push(Edge { start: Node { name: start_name }, end: Node { name: end_name } });
            assert(edge_pairs(self.edges@) =~= edge_pairs(old(self).edges@).push((start@, end@)));
            Ok(())
        } else {
            Err(GraphError::InvalidNodes)
        }
    }

    /// Removes every node called `name` and every edge that leaves or enters
    /// such a node; what stays keeps its order. Where no node has that name
    /// the graph is left as it was and the call fails with `NodeNotFound`.
    pub fn delete_node(&mut self, name: &str) -> (result: Result<(), GraphError>)
        ensures
            final(self).name_view() == old(self).name_view(),
            old(self).nodes_view().contains(name@) ==> {
                &&& result == Ok::<(), GraphError>(())
                &&& final(self).nodes_view() == old(self).nodes_view().filter(is_not_named(name@))
                &&& final(self).edges_view() == old(self).edges_view().filter(avoids(name@))
            },
            !old(self).nodes_view().contains(name@) ==> {
                &&& result == Err::<(), GraphError>(GraphError::NodeNotFound)
                &&& final(self).nodes_view() == old(self).nodes_view()
                &&& final(self).edges_view() == old(self).edges_view()
            },
            result is Ok ==> !final(self).nodes_view().contains(name@),
            result is Ok ==> forall|i: int|
                0 <= i < final(self).edges_view().len() ==> (#[trigger] final(self).edges_view()[i]).0
                    != name@ && final(self).edges_view()[i].1 != name@,
            old(self).well_joined() ==> final(self).well_joined(),
    {
        proof {
            lemma_delete_node_keeps_joined(old(self).nodes_view(), old(self).edges_view(), name@);
        }
        let gone: String = name.to_owned();
        if any_node_named(&self.nodes, &gone) {
            self.nodes = nodes_not_named(&self.nodes, &gone);
            self.edges = edges_avoiding(&self.edges, &gone);
            Ok(())
        } else {
            Err(GraphError::NodeNotFound)
        }
    }

    /// Removes every edge from `start` to `end`; the other edges keep their
    /// order. Where there is no such edge the graph is left as it was and the
    /// call fails with `EdgeNotFound`.
    pub fn delete_edge(&mut self, start: &str, end: &str) -> (result: Result<(), GraphError>)
        ensures
            final(self).name_view() == old(self).name_view(),
            final(self).nodes_view() == old(self).nodes_view(),
            old(self).edges_view().contains((start@, end@)) ==> {
                &&& result == Ok::<(), GraphError>(())
                &&& final(self).edges_view() == old(self).edges_view().filter(
                    is_not_pair(start@, end@),
                )
            },
            !old(self).edges_view().contains((start@, end@)) ==> {
                &&& result == Err::<(), GraphError>(GraphError::EdgeNotFound)
                &&& final(self).edges_view() == old(self).edges_view()
            },
            result is Ok ==> !final(self).edges_view().contains((start@, end@)),
            old(self).well_joined() ==> final(self).well_joined(),
    {
        proof {
            lemma_delete_edge_keeps_joined(
                old(self).nodes_view(),
                old(self).edges_view(),
                start@,
                end@,
            );
        }
        let start_name: String = start.to_owned();
        let end_name: String = end.to_owned();
        if any_edge_between(&self.edges, &start_name, &end_name) {
            self.edges = edges_not_between(&self.edges, &start_name, &end_name);
            Ok(())
        } else {
            Err(GraphError::EdgeNotFound)
        }
    }
}

} // verus!
