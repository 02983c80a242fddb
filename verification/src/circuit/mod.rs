//! The circuit graph: an arena of gate-bearing nodes wired through numbered
//! ports.
//!
//! Nodes are addressed by small integer handles that stay stable for the life
//! of the graph: removal leaves a hole and never renumbers. An edge connects
//! a numbered output port of one node to a numbered input port of another.
//! Each input port accepts at most one incoming edge — connecting over an
//! occupied input replaces the old edge — while an output port may fan out
//! freely. No cycle check is performed on connect; keeping the wiring acyclic
//! is the caller's business.

use vstd::prelude::*;

pub mod gate;

use gate::Gate;

verus! {

/// What happened to a node, for callers that track edits.
#[derive(Debug, Clone, Copy, PartialEq, Eq)]
pub enum EventType {
    Added,
    Changed,
    Removed,
}

/// One end of an edge: a node handle and a port number on that node.
#[derive(Debug, Clone, Copy, PartialEq, Eq, Structural)]
pub struct Port {
    pub node: usize,
    pub port: u32,
}

/// Builds a port address from a node handle and a port number.
pub fn port(node: usize, index: u32) -> (r: Port)
    ensures
        r == (Port { node: node, port: index }),
{
    Port { node: node, port: index }
}

/// A directed connection from an output port to an input port.
#[derive(Debug, Clone, Copy, PartialEq, Eq, Structural)]
pub struct Edge {
    pub from: Port,
    pub to: Port,
}

/// A node of the graph: a gate, and an opaque payload held on the caller's
/// behalf. The graph never reads the payload.
pub struct Node<T> {
    pub process: Gate,
    pub data: T,
}

/// The edges of `s` that touch node `node` at neither end, in order.
pub open spec fn edges_without_node(s: Seq<Edge>, node: int) -> Seq<Edge>
    decreases s.len(),
{
    if s.len() == 0 {
        Seq::empty()
    } else {
        let rest = edges_without_node(s.drop_last(), node);
        if s.last().from.node != node && s.last().to.node != node {
            rest.push(s.last())
        } else {
            rest
        }
    }
}

/// The edges of `s` that do not lead into the input port `to`, in order.
pub open spec fn edges_without_dest(s: Seq<Edge>, to: Port) -> Seq<Edge>
    decreases s.len(),
{
    if s.len() == 0 {
        Seq::empty()
    } else {
        let rest = edges_without_dest(s.drop_last(), to);
        if s.last().to != to {
            rest.push(s.last())
        } else {
            rest
        }
    }
}

/// The source feeding input port `to`, if an edge of `s` leads into it.
pub open spec fn source_into(s: Seq<Edge>, to: Port) -> Option<Port>
    decreases s.len(),
{
    if s.len() == 0 {
        None
    } else if s.last().to == to {
        Some(s.last().from)
    } else {
        source_into(s.drop_last(), to)
    }
}

/// No two edges lead into the same input port.
pub open spec fn unique_dests(s: Seq<Edge>) -> bool {
    forall|k: int, l: int| 0 <= k < l < s.len()
        ==> (#[trigger] s[k]).to != (#[trigger] s[l]).to
}

/// What dropping the edges of one node leaves: exactly the edges that did
/// not touch it, still one per input port.
proof fn lemma_edges_without_node_props(s: Seq<Edge>, node: int)
    ensures
        forall|k: int| 0 <= k < edges_without_node(s, node).len()
            ==> s.contains(#[trigger] edges_without_node(s, node)[k])
                && edges_without_node(s, node)[k].from.node != node
                && edges_without_node(s, node)[k].to.node != node,
        forall|e: Edge| s.contains(e) && e.from.node != node && e.to.node != node
            ==> edges_without_node(s, node).contains(e),
        unique_dests(s) ==> unique_dests(edges_without_node(s, node)),
    decreases s.len(),
{
    if s.len() > 0 {
        let dl = s.drop_last();
        lemma_edges_without_node_props(dl, node);
        let r = edges_without_node(s, node);
        let rest = edges_without_node(dl, node);
        assert forall|k: int| 0 <= k < rest.len() implies s.contains(#[trigger] rest[k]) by {
            assert(dl.contains(rest[k]));
            let i = choose|i: int| 0 <= i < dl.len() && dl[i] == rest[k];
            assert(s[i] == rest[k]);
        }
        assert forall|e: Edge| s.contains(e) && e.from.node != node && e.to.node != node
            implies r.contains(e) by {
            let i = choose|i: int| 0 <= i < s.len() && s[i] == e;
            if i < s.len() - 1 {
                assert(dl[i] == e);
                assert(dl.contains(e));
                assert(rest.contains(e));
                if s.last().from.node != node && s.last().to.node != node {
                    let j = choose|j: int| 0 <= j < rest.len() && rest[j] == e;
                    assert(r[j] == e);
                } else {
                    assert(r == rest);
                }
            } else {
                assert(e == s.last());
                assert(r.last() == e);
            }
        }
        if unique_dests(s) {
            assert(unique_dests(dl));
            if s.last().from.node != node && s.last().to.node != node {
                assert forall|k: int, l: int| 0 <= k < l < r.len()
                    implies (#[trigger] r[k]).to != (#[trigger] r[l]).to by {
                    if l == r.len() - 1 {
                        assert(r[l] == s.last());
                        assert(dl.contains(rest[k]));
                        let i = choose|i: int| 0 <= i < dl.len() && dl[i] == rest[k];
                        assert(s[i].to != s[s.len() - 1].to);
                    }
                }
            }
        }
    }
}

/// What replacing the edge into one input port leaves: exactly the edges
/// into other ports, still one per input port.
proof fn lemma_edges_without_dest_props(s: Seq<Edge>, to: Port)
    ensures
        forall|k: int| 0 <= k < edges_without_dest(s, to).len()
            ==> s.contains(#[trigger] edges_without_dest(s, to)[k])
                && edges_without_dest(s, to)[k].to != to,
        forall|e: Edge| s.contains(e) && e.to != to
            ==> edges_without_dest(s, to).contains(e),
        unique_dests(s) ==> unique_dests(edges_without_dest(s, to)),
    decreases s.len(),
{
    if s.len() > 0 {
        let dl = s.drop_last();
        lemma_edges_without_dest_props(dl, to);
        let r = edges_without_dest(s, to);
        let rest = edges_without_dest(dl, to);
        assert forall|k: int| 0 <= k < rest.len() implies s.contains(#[trigger] rest[k]) by {
            assert(dl.contains(rest[k]));
            let i = choose|i: int| 0 <= i < dl.len() && dl[i] == rest[k];
            assert(s[i] == rest[k]);
        }
        assert forall|e: Edge| s.contains(e) && e.to != to
            implies r.contains(e) by {
            let i = choose|i: int| 0 <= i < s.len() && s[i] == e;
            if i < s.len() - 1 {
                assert(dl[i] == e);
                assert(dl.contains(e));
                assert(rest.contains(e));
                if s.last().to != to {
                    let j = choose|j: int| 0 <= j < rest.len() && rest[j] == e;
                    assert(r[j] == e);
                } else {
                    assert(r == rest);
                }
            } else {
                assert(e == s.last());
                assert(r.last() == e);
            }
        }
        if unique_dests(s) {
            assert(unique_dests(dl));
            if s.last().to != to {
                assert forall|k: int, l: int| 0 <= k < l < r.len()
                    implies (#[trigger] r[k]).to != (#[trigger] r[l]).to by {
                    if l == r.len() - 1 {
                        assert(r[l] == s.last());
                        assert(dl.contains(rest[k]));
                        let i = choose|i: int| 0 <= i < dl.len() && dl[i] == rest[k];
                        assert(s[i].to != s[s.len() - 1].to);
                    }
                }
            }
        }
    }
}


/// A read-only window onto a circuit, handed to code that draws or inspects
/// it while someone else owns the circuit itself.
pub struct GameView<'a, T> {
    target: &'a Game<T>,
}

impl<'a, T> GameView<'a, T> {
    /// The circuit under view.
    pub closed spec fn game(&self) -> Game<T> {
        *self.target
    }

    /// Reads a node's gate and payload; a dead handle yields nothing.
    pub fn get(&self, node: usize) -> (r: Option<(&Gate, &T)>)
        ensures
            self.game().has_node(node as int) ==> (r matches Some(p)
                && *p.0 == self.game().gate_at(node as int)
                && *p.1 == self.game().data_at(node as int)),
            !self.game().has_node(node as int) ==> r is None,
    {
        self.target.get(node)
    }
}

/// A circuit: gates in an arena of stable handles, wired through ports.
pub struct Game<T> {
    nodes: Vec<Option<Node<T>>>,
    edges: Vec<Edge>,
}

impl<T> Game<T> {
    /// The arena of node slots.
    pub closed spec fn nodes_view(&self) -> Seq<Option<Node<T>>> {
        self.nodes@
    }

    /// The wiring.
    pub closed spec fn edges_view(&self) -> Seq<Edge> {
        self.edges@
    }

    /// The handle is live: within the arena and not removed.
    pub open spec fn has_node(&self, i: int) -> bool {
        0 <= i < self.nodes_view().len() && self.nodes_view()[i] is Some
    }

    /// A live handle's gate.
    pub open spec fn gate_at(&self, i: int) -> Gate {
        self.nodes_view()[i]->Some_0.process
    }

    /// The payload at a live handle.
    pub open spec fn data_at(&self, i: int) -> T {
        self.nodes_view()[i]->Some_0.data
    }

    /// The edge is wired to live nodes through ports within the declared
    /// arities.
    pub open spec fn edge_ok(&self, e: Edge) -> bool {
        &&& self.has_node(e.from.node as int)
        &&& e.from.port < self.gate_at(e.from.node as int).max_out_spec()
        &&& self.has_node(e.to.node as int)
        &&& e.to.port < self.gate_at(e.to.node as int).max_in_spec()
    }

    /// A well-formed circuit: every stored gate is well formed, every edge is
    /// wired within the declared arities, and no input port has two incoming
    /// edges.
    pub open spec fn wf(&self) -> bool {
        &&& forall|i: int| self.has_node(i) ==> (#[trigger] self.gate_at(i)).wf()
        &&& forall|k: int| 0 <= k < self.edges_view().len()
            ==> self.edge_ok(#[trigger] self.edges_view()[k])
        &&& unique_dests(self.edges_view())
    }

    /// An empty circuit.
    pub fn new() -> (g: Game<T>)
        ensures
            g.wf(),
            g.nodes_view().len() == 0,
            g.edges_view().len() == 0,
    {
        Game { nodes: Vec::new(), edges: Vec::new() }
    }


    /// A read-only window onto this circuit.
    pub fn view(&self) -> (v: GameView<T>)
        ensures
            v.game() == *self,
    {
        GameView { target: self }
    }

    /// Inserts a node carrying `process` and `data` and returns its handle.
    /// Handles are handed out in order and stay stable.
    pub fn add(&mut self, process: Gate, data: T) -> (id: usize)
        requires
            old(self).wf(),
            process.wf(),
        ensures
            final(self).wf(),
            id == old(self).nodes_view().len(),
            final(self).nodes_view().len() == old(self).nodes_view().len() + 1,
            final(self).has_node(id as int),
            final(self).gate_at(id as int) == process,
            final(self).data_at(id as int) == data,
            forall|i: int| 0 <= i < old(self).nodes_view().len()
                ==> final(self).nodes_view()[i] == old(self).nodes_view()[i],
            final(self).edges_view() == old(self).edges_view(),
    {
        let id = self.nodes.len();
        let ghost pre = *self;
        self.nodes.push(Some(Node { process: process, data: data }));
        proof {
            assert forall|k: int| 0 <= k < self.edges_view().len()
                implies self.edge_ok(#[trigger] self.edges_view()[k]) by {
                assert(pre.edge_ok(pre.edges_view()[k]));
            }
            assert forall|i: int| self.has_node(i)
                implies (#[trigger] self.gate_at(i)).wf() by {
                if i < id {
                    assert(pre.gate_at(i).wf());
                }
            }
        }
        id
    }

    /// Reads a node's gate and payload; a dead handle yields nothing.
    pub fn get(&self, node: usize) -> (r: Option<(&Gate, &T)>)
        ensures
            self.has_node(node as int) ==> (r matches Some(p)
                && *p.0 == self.gate_at(node as int)
                && *p.1 == self.data_at(node as int)),
            !self.has_node(node as int) ==> r is None,
    {
        if node < self.nodes.len() {
            match &self.nodes[node] {
                Some(n) => Some((&n.process, &n.data)),
                None => None,
            }
        } else {
            None
        }
    }


    /// Borrows a node's gate for mutation. The caller may put any gate
    /// there; the circuit stays well formed as long as the new gate is well
    /// formed and declares the same arities, so that the node's wiring still
    /// fits.
    pub fn get_process_mut(&mut self, node: usize) -> (g: &mut Gate)
        requires
            old(self).wf(),
            old(self).has_node(node as int),
        ensures
            *g == old(self).gate_at(node as int),
            final(self).nodes_view() == old(self).nodes_view().update(
                node as int,
                Some(Node { process: *final(g), data: old(self).data_at(node as int) }),
            ),
            final(self).edges_view() == old(self).edges_view(),
    {
        match &mut self.nodes[node] {
            Some(n) => &mut n.process,
            None => vstd::pervasive::unreached(),
        }
    }

    /// After a node's gate is replaced by a well-formed gate of the same
    /// arities, the circuit is still well formed: the node's wiring still
    /// fits.
    pub proof fn lemma_wf_after_node_update(pre: Game<T>, post: Game<T>, node: int)
        requires
            pre.wf(),
            pre.has_node(node),
            post.has_node(node),
            post.nodes_view().len() == pre.nodes_view().len(),
            forall|i: int| 0 <= i < pre.nodes_view().len() && i != node
                ==> post.nodes_view()[i] == pre.nodes_view()[i],
            post.gate_at(node).wf(),
            post.gate_at(node).max_in_spec() == pre.gate_at(node).max_in_spec(),
            post.gate_at(node).max_out_spec() == pre.gate_at(node).max_out_spec(),
            post.edges_view() == pre.edges_view(),
        ensures
            post.wf(),
    {
        assert forall|i: int| post.has_node(i)
            implies (#[trigger] post.gate_at(i)).wf() by {
            if i != node {
                assert(pre.nodes_view()[i] == post.nodes_view()[i]);
                assert(pre.gate_at(i).wf());
            }
        }
        assert forall|k: int| 0 <= k < post.edges_view().len()
            implies post.edge_ok(#[trigger] post.edges_view()[k]) by {
            assert(pre.edge_ok(pre.edges_view()[k]));
        }
    }

    /// Borrows a node's payload for mutation. The payload is opaque to the
    /// circuit, so the graph stays well formed whatever the caller writes.
    pub fn get_data_mut(&mut self, node: usize) -> (d: &mut T)
        requires
            old(self).wf(),
            old(self).has_node(node as int),
        ensures
            *d == old(self).data_at(node as int),
            final(self).nodes_view() == old(self).nodes_view().update(
                node as int,
                Some(Node { process: old(self).gate_at(node as int), data: *final(d) }),
            ),
            final(self).edges_view() == old(self).edges_view(),
    {
        match &mut self.nodes[node] {
            Some(n) => &mut n.data,
            None => vstd::pervasive::unreached(),
        }
    }

    /// Removes the node at `node`, along with every edge that touches it at
    /// either end, and hands its gate and payload back. A dead handle leaves
    /// the circuit untouched and yields nothing.
    pub fn remove(&mut self, node: usize) -> (r: Option<(Gate, T)>)
        requires
            old(self).wf(),
        ensures
            final(self).wf(),
            !old(self).has_node(node as int) ==> {
                &&& r is None
                &&& final(self).nodes_view() == old(self).nodes_view()
                &&& final(self).edges_view() == old(self).edges_view()
            },
            old(self).has_node(node as int) ==> {
                &&& (r matches Some(p)
                    && p.0 == old(self).gate_at(node as int)
                    && p.1 == old(self).data_at(node as int))
                &&& final(self).nodes_view()
                    == old(self).nodes_view().update(node as int, None)
                &&& !final(self).has_node(node as int)
                &&& final(self).edges_view()
                    == edges_without_node(old(self).edges_view(), node as int)
            },
    {
        let ghost pre = *self;
        if node >= self.nodes.len() {
            return None;
        }
        let slot = self.nodes.remove(node);
        self.nodes.insert(node, None);
        proof {
            assert(self.nodes_view() =~= pre.nodes_view().update(node as int, None));
        }
        match slot {
            None => {
                proof {
                    assert(self.nodes_view() =~= pre.nodes_view());
                    assert forall|i: int| self.has_node(i)
                        implies (#[trigger] self.gate_at(i)).wf() by {
                        assert(pre.gate_at(i).wf());
                    }
                    assert forall|j: int| 0 <= j < self.edges_view().len()
                        implies self.edge_ok(#[trigger] self.edges_view()[j]) by {
                        assert(pre.edge_ok(pre.edges_view()[j]));
                    }
                }
                None
            },
            Some(n) => {
                let ghost olde = self.edges@;
                let mut kept: Vec<Edge> = Vec::new();
                let m = self.edges.len();
                let mut k: usize = 0;
                while k < m
                    invariant
                        k <= m,
                        m == self.edges@.len(),
                        kept@ == edges_without_node(
                            self.edges@.subrange(0, k as int), node as int),
                    decreases m - k,
                {
                    let e = self.edges[k];
                    proof {
                        assert(self.edges@.subrange(0, k + 1).drop_last()
                            =~= self.edges@.subrange(0, k as int));
                        assert(self.edges@.subrange(0, k + 1).last() == e);
                    }
                    if e.from.node != node && e.to.node != node {
                        kept.push(e);
                    }
                    k = k + 1;
                }
                proof {
                    assert(self.edges@.subrange(0, m as int) =~= self.edges@);
                }
                self.edges = kept;
                proof {
                    lemma_edges_without_node_props(olde, node as int);
                    assert forall|j: int| 0 <= j < self.edges_view().len()
                        implies self.edge_ok(#[trigger] self.edges_view()[j]) by {
                        let e = self.edges_view()[j];
                        assert(olde.contains(e));
                        let i = choose|i: int| 0 <= i < olde.len() && olde[i] == e;
                        assert(pre.edge_ok(e));
                    }
                    assert forall|i: int| self.has_node(i)
                        implies (#[trigger] self.gate_at(i)).wf() by {
                        assert(pre.gate_at(i).wf());
                    }
                }
                Some((n.process, n.data))
            },
        }
    }

    /// Connects an output port to an input port. Either handle dead, or a
    /// port number at or above that gate's declared arity, makes the call a
    /// no-op that reports false. Otherwise the edge is inserted, replacing
    /// whatever edge fed that input port before: an input port never carries
    /// two incoming edges. No cycle check is made.
    pub fn connect(&mut self, from: Port, to: Port) -> (ok: bool)
        requires
            old(self).wf(),
        ensures
            final(self).wf(),
            final(self).nodes_view() == old(self).nodes_view(),
            ok == {
                &&& old(self).has_node(from.node as int)
                &&& old(self).has_node(to.node as int)
                &&& from.port < old(self).gate_at(from.node as int).max_out_spec()
                &&& to.port < old(self).gate_at(to.node as int).max_in_spec()
            },
            ok ==> final(self).edges_view()
                == edges_without_dest(old(self).edges_view(), to)
                    .push(Edge { from: from, to: to }),
            !ok ==> final(self).edges_view() == old(self).edges_view(),
    {
        let ghost pre = *self;
        let from_ok = match self.get(from.node) {
            Some(p) => from.port < p.0.max_out(),
            None => false,
        };
        let to_ok = match self.get(to.node) {
            Some(p) => to.port < p.0.max_in(),
            None => false,
        };
        if !(from_ok && to_ok) {
            return false;
        }
        let ghost olde = self.edges@;
        let mut kept: Vec<Edge> = Vec::new();
        let m = self.edges.len();
        let mut k: usize = 0;
        while k < m
            invariant
                k <= m,
                m == self.edges@.len(),
                kept@ == edges_without_dest(self.edges@.subrange(0, k as int), to),
            decreases m - k,
        {
            let e = self.edges[k];
            proof {
                assert(self.edges@.subrange(0, k + 1).drop_last()
                    =~= self.edges@.subrange(0, k as int));
                assert(self.edges@.subrange(0, k + 1).last() == e);
            }
            if !(e.to.node == to.node && e.to.port == to.port) {
                kept.push(e);
            }
            k = k + 1;
        }
        proof {
            assert(self.edges@.subrange(0, m as int) =~= self.edges@);
        }
        kept.push(Edge { from: from, to: to });
        self.edges = kept;
        proof {
            lemma_edges_without_dest_props(olde, to);
            let filtered = edges_without_dest(olde, to);
            assert forall|j: int| 0 <= j < self.edges_view().len()
                implies self.edge_ok(#[trigger] self.edges_view()[j]) by {
                if j < filtered.len() {
                    let e = filtered[j];
                    assert(olde.contains(e));
                    let i = choose|i: int| 0 <= i < olde.len() && olde[i] == e;
                    assert(pre.edge_ok(e));
                } else {
                    assert(self.edges_view()[j] == (Edge { from: from, to: to }));
                }
            }
            assert forall|k2: int, l: int| 0 <= k2 < l < self.edges_view().len()
                implies (#[trigger] self.edges_view()[k2]).to
                    != (#[trigger] self.edges_view()[l]).to by {
                if l == self.edges_view().len() - 1 {
                    assert(filtered[k2].to != to);
                }
            }
            assert forall|i: int| self.has_node(i)
                implies (#[trigger] self.gate_at(i)).wf() by {
                assert(pre.gate_at(i).wf());
            }
        }
        true
    }

    /// Severs the edge feeding the input port `to`, if one exists, and hands
    /// back the output port that fed it.
    pub fn disconnect(&mut self, to: Port) -> (r: Option<Port>)
        requires
            old(self).wf(),
        ensures
            final(self).wf(),
            final(self).nodes_view() == old(self).nodes_view(),
            r == source_into(old(self).edges_view(), to),
            final(self).edges_view() == edges_without_dest(old(self).edges_view(), to),
    {
        let ghost pre = *self;
        let ghost olde = self.edges@;
        let mut kept: Vec<Edge> = Vec::new();
        let mut found: Option<Port> = None;
        let m = self.edges.len();
        let mut k: usize = 0;
        while k < m
            invariant
                k <= m,
                m == self.edges@.len(),
                kept@ == edges_without_dest(self.edges@.subrange(0, k as int), to),
                found == source_into(self.edges@.subrange(0, k as int), to),
            decreases m - k,
        {
            let e = self.edges[k];
            proof {
                assert(self.edges@.subrange(0, k + 1).drop_last()
                    =~= self.edges@.subrange(0, k as int));
                assert(self.edges@.subrange(0, k + 1).last() == e);
            }
            if e.to.node == to.node && e.to.port == to.port {
                found = Some(e.from);
            } else {
                kept.push(e);
            }
            k = k + 1;
        }
        proof {
            assert(self.edges@.subrange(0, m as int) =~= self.edges@);
        }
        self.edges = kept;
        proof {
            lemma_edges_without_dest_props(olde, to);
            assert forall|j: int| 0 <= j < self.edges_view().len()
                implies self.edge_ok(#[trigger] self.edges_view()[j]) by {
                let e = self.edges_view()[j];
                assert(olde.contains(e));
                let i = choose|i: int| 0 <= i < olde.len() && olde[i] == e;
                assert(pre.edge_ok(e));
            }
            assert forall|i: int| self.has_node(i)
                implies (#[trigger] self.gate_at(i)).wf() by {
                assert(pre.gate_at(i).wf());
            }
        }
        found
    }

    /// How many edges the circuit holds.
    pub fn connections(&self) -> (n: usize)
        ensures
            n == self.edges_view().len(),
    {
        self.edges.len()
    }

    /// The live node handles, in ascending order.
    pub fn iter(&self) -> (ids: Vec<usize>)
        ensures
            forall|k: int| 0 <= k < ids@.len() ==> self.has_node(#[trigger] ids@[k] as int),
            forall|i: int| 0 <= i < self.nodes_view().len() && self.has_node(i)
                ==> ids@.contains(i as usize),
            forall|k: int, l: int| 0 <= k < l < ids@.len()
                ==> #[trigger] ids@[k] < #[trigger] ids@[l],
    {
        let mut ids: Vec<usize> = Vec::new();
        let n = self.nodes.len();
        let mut i: usize = 0;
        while i < n
            invariant
                i <= n,
                n == self.nodes_view().len(),
                forall|k: int| 0 <= k < ids@.len()
                    ==> self.has_node(#[trigger] ids@[k] as int) && ids@[k] < i,
                forall|j: int| 0 <= j < i && self.has_node(j) ==> ids@.contains(j as usize),
                forall|k: int, l: int| 0 <= k < l < ids@.len()
                    ==> #[trigger] ids@[k] < #[trigger] ids@[l],
            decreases n - i,
        {
            let ghost prev = ids@;
            if self.nodes[i].is_some() {
                ids.push(i);
            }
            proof {
                assert forall|j: int| 0 <= j < i + 1 && self.has_node(j)
                    implies ids@.contains(j as usize) by {
                    if j < i {
                        assert(prev.contains(j as usize));
                        let w = choose|w: int| 0 <= w < prev.len() && prev[w] == j as usize;
                        assert(ids@[w] == j as usize);
                    } else {
                        assert(ids@.last() == i as usize);
                    }
                }
            }
            i = i + 1;
        }
        ids
    }

    /// Every edge, as (source port, destination port), in storage order.
    pub fn iter_connections(&self) -> (es: Vec<Edge>)
        ensures
            es@ == self.edges_view(),
    {
        let mut es: Vec<Edge> = Vec::new();
        let m = self.edges.len();
        let mut k: usize = 0;
        while k < m
            invariant
                k <= m,
                m == self.edges@.len(),
                es@ == self.edges@.subrange(0, k as int),
            decreases m - k,
        {
            es.push(self.edges[k]);
            proof {
                assert(es@ =~= self.edges@.subrange(0, k + 1));
            }
            k = k + 1;
        }
        proof {
            assert(self.edges@.subrange(0, m as int) =~= self.edges@);
        }
        es
    }
}

} // verus!
