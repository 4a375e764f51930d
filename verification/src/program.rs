//! The dataflow program graph.
//!
//! A program is a set of nodes with unique ids joined by directed edges.
//! Its central invariant is the edge/stream isomorphism: every edge is
//! backed by exactly one pipe or TCP stream that appears in the producing
//! node's outputs and the consuming node's inputs with matching
//! endpoints, and every such stream corresponds to an edge.
use crate::errors::Error;
use crate::node::CommandNodeView;
use crate::node::Elem;
use crate::node::ElemView;
use crate::node::ReadNodeView;
use crate::node::WriteNodeView;
use crate::node::attach_in;
use crate::node::attach_out;
use crate::node::can_attach_in;
use crate::node::can_attach_out;
use crate::node::elem_id;
use crate::node::elem_loc;
use crate::node::in_streams;
use crate::node::out_streams;
use crate::node::with_ids;
use crate::node::NodeArg;
use crate::node::resolved_elem;
use crate::node::resolved_streams;
use crate::node::resolved_args;
use crate::node::resolved_arg;
use crate::node::resolved_stream;
use crate::stream::Location;
use crate::stream::NetStream;
use crate::stream::NetStreamView;
use crate::node::CommandNode;
use crate::node::ReadNode;
use crate::node::WriteNode;
use crate::node::duplicate_streams;
use crate::stream::LocationView;
use crate::stream::DashStream;
use crate::stream::DashStreamView;
use crate::stream::IOType;
use crate::stream::PipeStream;
use crate::stream::edge_stream_io;
use crate::stream::edge_stream_left;
use crate::stream::edge_stream_right;
use crate::stream::is_edge_stream;
use vstd::prelude::*;

verus! {

/// One directed edge of the graph, from the producing node to the
/// consuming node.
#[derive(Clone, Copy, Debug, PartialEq, Eq, Structural)]
pub struct Link {
    pub left: u32,
    pub right: u32,
}

/// A dataflow program.
#[derive(Clone, Debug, PartialEq)]
pub struct Program {
    pub prog_id: u32,
    /// The next node id to hand out; node ids start at 1.
    pub counter: u32,
    pub nodes: Vec<Elem>,
    pub edges: Vec<Link>,
}

/// The mathematical value of a `Program`.
#[verifier::ext_equal]
pub struct ProgramView {
    pub prog_id: u32,
    pub counter: u32,
    pub nodes: Seq<ElemView>,
    pub edges: Seq<Link>,
}

/// The views of a vector of nodes.
pub open spec fn nodes_view(v: Seq<Elem>) -> Seq<ElemView> {
    v.map_values(|e: Elem| e@)
}

impl View for Program {
    type V = ProgramView;

    open spec fn view(&self) -> ProgramView {
        ProgramView {
            prog_id: self.prog_id,
            counter: self.counter,
            nodes: nodes_view(self.nodes@),
            edges: self.edges@,
        }
    }
}

/// True when the program has a node with this id.
pub open spec fn has_node(p: ProgramView, id: u32) -> bool {
    exists|i: int| 0 <= i < p.nodes.len() && elem_id(#[trigger] p.nodes[i]) == id
}

/// The index of the node with this id.
pub open spec fn node_index(p: ProgramView, id: u32) -> int {
    choose|i: int| 0 <= i < p.nodes.len() && elem_id(#[trigger] p.nodes[i]) == id
}

/// The node with this id.
pub open spec fn node_of(p: ProgramView, id: u32) -> ElemView {
    p.nodes[node_index(p, id)]
}

/// True when the program has this directed edge.
pub open spec fn has_edge(p: ProgramView, left: u32, right: u32) -> bool {
    p.edges.contains(Link { left, right })
}

/// Node ids are unique, positive, and below the counter.
pub open spec fn wf_nodes(p: ProgramView) -> bool {
    &&& p.counter >= 1
    &&& forall|i: int, j: int|
        0 <= i < j < p.nodes.len() ==> elem_id(#[trigger] p.nodes[i]) != elem_id(
            #[trigger] p.nodes[j],
        )
    &&& forall|i: int|
        0 <= i < p.nodes.len() ==> 1 <= elem_id(#[trigger] p.nodes[i]) < p.counter
}

/// Edges join two distinct existing nodes, and no edge repeats.
pub open spec fn wf_edge_refs(p: ProgramView) -> bool {
    &&& forall|k: int|
        0 <= k < p.edges.len() ==> has_node(p, (#[trigger] p.edges[k]).left) && has_node(
            p,
            p.edges[k].right,
        ) && p.edges[k].left != p.edges[k].right
    &&& forall|k: int, l: int| 0 <= k < l < p.edges.len() ==> #[trigger] p.edges[k] != #[trigger] p.edges[l]
}

/// Every stream a node produces is an edge stream leaving that node
/// along an existing edge.
pub open spec fn node_out_ok(p: ProgramView, i: int) -> bool {
    forall|m: int|
        0 <= m < out_streams(p.nodes[i]).len() ==> {
            let s = #[trigger] out_streams(p.nodes[i])[m];
            &&& is_edge_stream(s)
            &&& edge_stream_left(s) == elem_id(p.nodes[i])
            &&& has_edge(p, edge_stream_left(s), edge_stream_right(s))
        }
}

/// Every stream a node consumes is an edge stream entering that node
/// along an existing edge.
pub open spec fn node_in_ok(p: ProgramView, i: int) -> bool {
    forall|m: int|
        0 <= m < in_streams(p.nodes[i]).len() ==> {
            let s = #[trigger] in_streams(p.nodes[i])[m];
            &&& is_edge_stream(s)
            &&& edge_stream_right(s) == elem_id(p.nodes[i])
            &&& has_edge(p, edge_stream_left(s), edge_stream_right(s))
        }
}

/// No two streams a node produces back the same edge.
pub open spec fn node_out_unique(p: ProgramView, i: int) -> bool {
    forall|m: int, n: int|
        0 <= m < n < out_streams(p.nodes[i]).len() ==> !(edge_stream_left(
            #[trigger] out_streams(p.nodes[i])[m],
        ) == edge_stream_left(#[trigger] out_streams(p.nodes[i])[n]) && edge_stream_right(
            out_streams(p.nodes[i])[m],
        ) == edge_stream_right(out_streams(p.nodes[i])[n]))
}

/// No two streams a node consumes back the same edge.
pub open spec fn node_in_unique(p: ProgramView, i: int) -> bool {
    forall|m: int, n: int|
        0 <= m < n < in_streams(p.nodes[i]).len() ==> !(edge_stream_left(
            #[trigger] in_streams(p.nodes[i])[m],
        ) == edge_stream_left(#[trigger] in_streams(p.nodes[i])[n]) && edge_stream_right(
            in_streams(p.nodes[i])[m],
        ) == edge_stream_right(in_streams(p.nodes[i])[n]))
}

/// All four stream conditions, for every node.
pub open spec fn wf_streams(p: ProgramView) -> bool {
    &&& forall|i: int| 0 <= i < p.nodes.len() ==> #[trigger] node_out_ok(p, i)
    &&& forall|i: int| 0 <= i < p.nodes.len() ==> #[trigger] node_in_ok(p, i)
    &&& forall|i: int| 0 <= i < p.nodes.len() ==> #[trigger] node_out_unique(p, i)
    &&& forall|i: int| 0 <= i < p.nodes.len() ==> #[trigger] node_in_unique(p, i)
}

/// The edge at index `k` is backed by one stream that appears both in
/// the producing node's outputs and the consuming node's inputs.
pub open spec fn edge_backed(p: ProgramView, k: int) -> bool {
    exists|i: int, m: int, j: int, n: int|
        {
            &&& 0 <= i < p.nodes.len()
            &&& 0 <= j < p.nodes.len()
            &&& 0 <= m < out_streams(p.nodes[i]).len()
            &&& 0 <= n < in_streams(p.nodes[j]).len()
            &&& elem_id(p.nodes[i]) == p.edges[k].left
            &&& elem_id(p.nodes[j]) == p.edges[k].right
            &&& #[trigger] out_streams(p.nodes[i])[m] == #[trigger] in_streams(p.nodes[j])[n]
            &&& edge_stream_left(out_streams(p.nodes[i])[m]) == p.edges[k].left
            &&& edge_stream_right(out_streams(p.nodes[i])[m]) == p.edges[k].right
        }
}

/// Every edge is backed by a stream.
pub open spec fn wf_backed(p: ProgramView) -> bool {
    forall|k: int| 0 <= k < p.edges.len() ==> #[trigger] edge_backed(p, k)
}

/// The program graph invariant: the edge/stream isomorphism together
/// with id uniqueness.
pub open spec fn wf(p: ProgramView) -> bool {
    &&& wf_nodes(p)
    &&& wf_edge_refs(p)
    &&& wf_streams(p)
    &&& wf_backed(p)
}

/// With unique ids, looking a node up by its id gives that node back.
pub proof fn lemma_node_of(p: ProgramView, i: int)
    requires
        wf_nodes(p),
        0 <= i < p.nodes.len(),
    ensures
        node_index(p, elem_id(p.nodes[i])) == i,
        node_of(p, elem_id(p.nodes[i])) == p.nodes[i],
{
    let id = elem_id(p.nodes[i]);
    assert(has_node(p, id));
    let j = node_index(p, id);
    if i != j {
        assert(elem_id(p.nodes[i]) != elem_id(p.nodes[j]));
    }
}

impl Program {
    /// An empty program with this id.  Node ids will start at 1.
    pub fn make(prog_id: u32) -> (r: Program)
        ensures
            r@ == (ProgramView {
                prog_id,
                counter: 1,
                nodes: Seq::<ElemView>::empty(),
                edges: Seq::<Link>::empty(),
            }),
            wf(r@),
    {
        let r = Program { prog_id, counter: 1, nodes: Vec::new(), edges: Vec::new() };
        proof {
            assert(r@.nodes =~= Seq::<ElemView>::empty());
            assert(r@.edges =~= Seq::<Link>::empty());
        }
        r
    }

    /// The program's id.
    pub fn get_id(&self) -> (r: u32)
        ensures
            r == self@.prog_id,
    {
        self.prog_id
    }

    /// The index in `nodes` of the node with this id.
    pub fn find_node_index(&self, id: u32) -> (r: Option<usize>)
        ensures
            match r {
                Some(i) => i < self@.nodes.len() && elem_id(self@.nodes[i as int]) == id,
                None => !has_node(self@, id),
            },
    {
        let mut i: usize = 0;
        while i < self.nodes.len()
            invariant
                i <= self.nodes.len(),
                forall|j: int| 0 <= j < i ==> elem_id(nodes_view(self.nodes@)[j]) != id,
            decreases self.nodes.len() - i,
        {
            if self.nodes[i].get_id() == id {
                return Some(i);
            }
            i = i + 1;
        }
        None
    }

    /// True when the program has a node with this id.
    pub fn contains_node(&self, id: u32) -> (r: bool)
        ensures
            r == has_node(self@, id),
    {
        match self.find_node_index(id) {
            Some(_) => true,
            None => false,
        }
    }

    /// The node with this id, if present.
    pub fn get_node(&self, id: u32) -> (r: Option<&Elem>)
        ensures
            match r {
                Some(e) => has_node(self@, id) && exists|i: int|
                    0 <= i < self@.nodes.len() && elem_id(#[trigger] self@.nodes[i]) == id
                        && e@ == self@.nodes[i],
                None => !has_node(self@, id),
            },
    {
        match self.find_node_index(id) {
            Some(i) => Some(&self.nodes[i]),
            None => None,
        }
    }

    /// True when the program has this directed edge.
    pub fn contains_edge(&self, left: u32, right: u32) -> (r: bool)
        ensures
            r == has_edge(self@, left, right),
    {
        let mut k: usize = 0;
        while k < self.edges.len()
            invariant
                k <= self.edges.len(),
                forall|j: int| 0 <= j < k ==> self.edges@[j] != (Link { left, right }),
            decreases self.edges.len() - k,
        {
            let e = self.edges[k];
            if e.left == left && e.right == right {
                return true;
            }
            k = k + 1;
        }
        false
    }

    /// The nodes, in insertion order.
    pub fn get_nodes(&self) -> (r: &Vec<Elem>)
        ensures
            nodes_view(r@) == self@.nodes,
    {
        &self.nodes
    }

    /// The edges, in insertion order.
    pub fn get_edges(&self) -> (r: &Vec<Link>)
        ensures
            r@ == self@.edges,
    {
        &self.edges
    }

    /// Insert a node that carries no edge streams yet and give it a
    /// fresh id.  Returns the id.
    pub fn add_elem(&mut self, elem: Elem) -> (r: u32)
        requires
            wf(old(self)@),
            old(self)@.counter < u32::MAX,
            in_streams(elem@).len() == 0,
            out_streams(elem@).len() == 0,
        ensures
            r == old(self)@.counter,
            final(self)@ == (ProgramView {
                counter: (old(self)@.counter + 1) as u32,
                nodes: old(self)@.nodes.push(
                    with_ids(elem@, old(self)@.counter, old(self)@.prog_id),
                ),
                ..old(self)@
            }),
            wf(final(self)@),
            has_node(final(self)@, r),
    {
        let ghost elem0 = elem@;
        let id = self.counter;
        let mut elem = elem;
        elem.set_ids(id, self.prog_id);
        self.nodes.push(elem);
        self.counter = self.counter + 1;
        proof {
            let oldp = old(self)@;
            let p = self@;
            let newnode = with_ids(elem0, oldp.counter, oldp.prog_id);
            assert(p.nodes =~= oldp.nodes.push(newnode));
            assert(elem_id(newnode) == oldp.counter);
            assert(in_streams(newnode) =~= Seq::<DashStreamView>::empty());
            assert(out_streams(newnode) =~= Seq::<DashStreamView>::empty());
            assert(p =~= (ProgramView {
                counter: (oldp.counter + 1) as u32,
                nodes: oldp.nodes.push(newnode),
                ..oldp
            }));
            assert(p.nodes[p.nodes.len() - 1] == newnode);
            assert(has_node(p, oldp.counter));
            assert forall|k: int| 0 <= k < p.edges.len() implies has_node(
                p,
                (#[trigger] p.edges[k]).left,
            ) && has_node(p, p.edges[k].right) && p.edges[k].left != p.edges[k].right by {
                assert(has_node(oldp, p.edges[k].left));
                let i = node_index(oldp, p.edges[k].left);
                assert(elem_id(p.nodes[i]) == p.edges[k].left);
                assert(has_node(oldp, p.edges[k].right));
                let j = node_index(oldp, p.edges[k].right);
                assert(elem_id(p.nodes[j]) == p.edges[k].right);
            }
            assert forall|i: int| 0 <= i < p.nodes.len() implies #[trigger] node_out_ok(p, i) by {
                if i < oldp.nodes.len() {
                    assert(node_out_ok(oldp, i));
                    assert(p.nodes[i] == oldp.nodes[i]);
                    assert forall|m: int|
                        0 <= m < out_streams(p.nodes[i]).len() implies {
                        let s = #[trigger] out_streams(p.nodes[i])[m];
                        &&& is_edge_stream(s)
                        &&& edge_stream_left(s) == elem_id(p.nodes[i])
                        &&& has_edge(p, edge_stream_left(s), edge_stream_right(s))
                    } by {
                        assert(out_streams(oldp.nodes[i])[m] == out_streams(p.nodes[i])[m]);
                    }
                }
            }
            assert forall|i: int| 0 <= i < p.nodes.len() implies #[trigger] node_in_ok(p, i) by {
                if i < oldp.nodes.len() {
                    assert(node_in_ok(oldp, i));
                    assert(p.nodes[i] == oldp.nodes[i]);
                    assert forall|m: int|
                        0 <= m < in_streams(p.nodes[i]).len() implies {
                        let s = #[trigger] in_streams(p.nodes[i])[m];
                        &&& is_edge_stream(s)
                        &&& edge_stream_right(s) == elem_id(p.nodes[i])
                        &&& has_edge(p, edge_stream_left(s), edge_stream_right(s))
                    } by {
                        assert(in_streams(oldp.nodes[i])[m] == in_streams(p.nodes[i])[m]);
                    }
                }
            }
            assert forall|i: int| 0 <= i < p.nodes.len() implies #[trigger] node_out_unique(
                p,
                i,
            ) by {
                if i < oldp.nodes.len() {
                    assert(node_out_unique(oldp, i));
                    assert(p.nodes[i] == oldp.nodes[i]);
                }
            }
            assert forall|i: int| 0 <= i < p.nodes.len() implies #[trigger] node_in_unique(
                p,
                i,
            ) by {
                if i < oldp.nodes.len() {
                    assert(node_in_unique(oldp, i));
                    assert(p.nodes[i] == oldp.nodes[i]);
                }
            }
            assert forall|k: int| 0 <= k < p.edges.len() implies #[trigger] edge_backed(p, k) by {
                assert(edge_backed(oldp, k));
                let (i, m, j, n): (int, int, int, int) = choose|i: int, m: int, j: int, n: int|
                    {
                        &&& 0 <= i < oldp.nodes.len()
                        &&& 0 <= j < oldp.nodes.len()
                        &&& 0 <= m < out_streams(oldp.nodes[i]).len()
                        &&& 0 <= n < in_streams(oldp.nodes[j]).len()
                        &&& elem_id(oldp.nodes[i]) == oldp.edges[k].left
                        &&& elem_id(oldp.nodes[j]) == oldp.edges[k].right
                        &&& #[trigger] out_streams(oldp.nodes[i])[m] == #[trigger] in_streams(
                            oldp.nodes[j],
                        )[n]
                        &&& edge_stream_left(out_streams(oldp.nodes[i])[m]) == oldp.edges[k].left
                        &&& edge_stream_right(out_streams(oldp.nodes[i])[m]) == oldp.edges[k].right
                    };
                assert(p.nodes[i] == oldp.nodes[i] && p.nodes[j] == oldp.nodes[j]);
                assert(out_streams(p.nodes[i])[m] == in_streams(p.nodes[j])[n]);
            }
        }
        id
    }
}


/// The index at which `attach_out` places the new stream within
/// `out_streams`.
pub open spec fn attach_pos(e: ElemView, io: IOType) -> int {
    match e {
        ElemView::Cmd(c) => if io == IOType::Stderr {
            c.stdout.len() + c.stderr.len() as int
        } else {
            c.stdout.len() as int
        },
        _ => 0,
    }
}

/// How `attach_out` changes a node: the id, the location and the
/// consumed streams stay; the produced streams gain `s` at `attach_pos`,
/// shifting later ones by one.
pub proof fn lemma_attach_out_shape(e: ElemView, s: DashStreamView, io: IOType)
    requires
        can_attach_out(e, io),
    ensures
        ({
            let oldv = out_streams(e);
            let newv = out_streams(attach_out(e, s, io));
            let pos = attach_pos(e, io);
            &&& elem_id(attach_out(e, s, io)) == elem_id(e)
            &&& in_streams(attach_out(e, s, io)) == in_streams(e)
            &&& newv.len() == oldv.len() + 1
            &&& 0 <= pos < newv.len()
            &&& newv[pos] == s
            &&& forall|m: int| 0 <= m < pos ==> #[trigger] newv[m] == oldv[m]
            &&& forall|m: int| pos < m < newv.len() ==> #[trigger] newv[m] == oldv[m - 1]
        }),
{
    let oldv = out_streams(e);
    let newv = out_streams(attach_out(e, s, io));
    let pos = attach_pos(e, io);
    match e {
        ElemView::Cmd(c) => {
            if io == IOType::Stderr {
                assert(newv =~= c.stdout + c.stderr.push(s));
                assert forall|m: int| 0 <= m < pos implies #[trigger] newv[m] == oldv[m] by {}
            } else {
                assert(newv =~= c.stdout.push(s) + c.stderr);
                assert forall|m: int| pos < m < newv.len() implies #[trigger] newv[m] == oldv[m
                    - 1] by {
                    assert(newv[m] == c.stderr[m - (c.stdout.len() + 1)]);
                    assert(oldv[m - 1] == c.stderr[m - 1 - c.stdout.len()]);
                }
            }
        },
        ElemView::Read(r) => {
            assert(oldv =~= Seq::<DashStreamView>::empty());
            assert(newv =~= seq![s]);
        },
        ElemView::Write(_) => {},
    }
}

/// How `attach_in` changes a node: the id, the location and the
/// produced streams stay; the consumed streams gain `s` at the end.
pub proof fn lemma_attach_in_shape(e: ElemView, s: DashStreamView)
    requires
        can_attach_in(e),
    ensures
        elem_id(attach_in(e, s)) == elem_id(e),
        out_streams(attach_in(e, s)) == out_streams(e),
        in_streams(attach_in(e, s)) == in_streams(e).push(s),
{
    match e {
        ElemView::Cmd(c) => {
            assert(out_streams(attach_in(e, s)) =~= out_streams(e));
        },
        ElemView::Read(_) => {},
        ElemView::Write(_) => {},
    }
}

/// Whether a pipe edge can be added between two nodes.
pub open spec fn can_add_pipe(p: ProgramView, left: u32, right: u32, io: IOType) -> bool {
    &&& has_node(p, left)
    &&& has_node(p, right)
    &&& left != right
    &&& !has_edge(p, left, right)
    &&& can_attach_out(node_of(p, left), io)
    &&& can_attach_in(node_of(p, right))
}

impl Program {
    /// Create a pipe from `left`'s `io` stream to `right`'s stdin, add
    /// the edge, and register the pipe in both endpoints' stream lists.
    /// This is the one operation that grows the graph's edges, and it
    /// preserves the edge/stream isomorphism.
    pub fn add_pipe_edge(&mut self, left: u32, right: u32, io: IOType) -> (r: Result<
        PipeStream,
        Error,
    >)
        requires
            wf(old(self)@),
        ensures
            wf(final(self)@),
            match r {
                Ok(pipe) => {
                    &&& can_add_pipe(old(self)@, left, right, io)
                    &&& pipe == (PipeStream { left, right, io })
                    &&& final(self)@.prog_id == old(self)@.prog_id
                    &&& final(self)@.counter == old(self)@.counter
                    &&& final(self)@.edges == old(self)@.edges.push(Link { left, right })
                    &&& final(self)@.nodes.len() == old(self)@.nodes.len()
                    &&& (forall|i: int|
                        0 <= i < old(self)@.nodes.len() && elem_id(
                            #[trigger] old(self)@.nodes[i],
                        ) != left && elem_id(old(self)@.nodes[i]) != right
                            ==> final(self)@.nodes[i] == old(self)@.nodes[i])
                    &&& (forall|i: int|
                        0 <= i < old(self)@.nodes.len() && elem_id(
                            #[trigger] old(self)@.nodes[i],
                        ) == left ==> final(self)@.nodes[i] == attach_out(
                            old(self)@.nodes[i],
                            DashStreamView::Pipe(pipe),
                            io,
                        ))
                    &&& (forall|i: int|
                        0 <= i < old(self)@.nodes.len() && elem_id(
                            #[trigger] old(self)@.nodes[i],
                        ) == right ==> final(self)@.nodes[i] == attach_in(
                            old(self)@.nodes[i],
                            DashStreamView::Pipe(pipe),
                        ))
                },
                Err(e) => {
                    &&& final(self)@ == old(self)@
                    &&& !can_add_pipe(old(self)@, left, right, io)
                    &&& (e == Error::MissingNode <==> (!has_node(old(self)@, left) || !has_node(
                        old(self)@,
                        right,
                    )))
                    &&& (e == Error::DuplicateEdge <==> (has_node(old(self)@, left) && has_node(
                        old(self)@,
                        right,
                    ) && has_edge(old(self)@, left, right)))
                    &&& (e == Error::MissingNode || e == Error::DuplicateEdge || e
                        == Error::InvalidRedirection)
                },
            },
    {
        let li = match self.find_node_index(left) {
            Some(i) => i,
            None => {
                return Err(Error::MissingNode);
            },
        };
        let ri = match self.find_node_index(right) {
            Some(i) => i,
            None => {
                return Err(Error::MissingNode);
            },
        };
        if self.contains_edge(left, right) {
            return Err(Error::DuplicateEdge);
        }
        if left == right {
            return Err(Error::InvalidRedirection);
        }
        proof {
            lemma_node_of(old(self)@, li as int);
            lemma_node_of(old(self)@, ri as int);
            if li == ri {
                assert(false);
            }
        }
        let ok_out = match &self.nodes[li] {
            Elem::Cmd(_) => io != IOType::Stdin,
            Elem::Read(rd) => io == IOType::Stdout && rd.stdout.is_none(),
            Elem::Write(_) => false,
        };
        if !ok_out {
            return Err(Error::InvalidRedirection);
        }
        let ok_in = match &self.nodes[ri] {
            Elem::Cmd(_) => true,
            Elem::Read(_) => false,
            Elem::Write(_) => true,
        };
        if !ok_in {
            return Err(Error::InvalidRedirection);
        }
        let pipe = PipeStream::new(left, right, io);
        let ghost oldp = old(self)@;
        let ghost sv = DashStreamView::Pipe(pipe);
        let ghost oldl = oldp.nodes[li as int];
        let ghost oldr = oldp.nodes[ri as int];
        let mut tmp = Elem::Write(crate::node::WriteNode::make());
        self.nodes.set_and_swap(li, &mut tmp);
        match tmp.attach_out_stream(DashStream::Pipe(pipe), io) {
            Ok(()) => {},
            Err(_) => {
                proof {
                    assert(false);
                }
                return Err(Error::InvalidRedirection);
            },
        }
        self.nodes.set_and_swap(li, &mut tmp);
        self.nodes.set_and_swap(ri, &mut tmp);
        match tmp.attach_in_stream(DashStream::Pipe(pipe)) {
            Ok(()) => {},
            Err(_) => {
                proof {
                    assert(false);
                }
                return Err(Error::InvalidRedirection);
            },
        }
        self.nodes.set_and_swap(ri, &mut tmp);
        self.edges.push(Link { left, right });
        proof {
            let p = self@;
            let newl = attach_out(oldl, sv, io);
            let newr = attach_in(oldr, sv);
            let newlink = Link { left, right };
            assert(p.nodes =~= oldp.nodes.update(li as int, newl).update(ri as int, newr));
            assert(p.edges =~= oldp.edges.push(newlink));
            lemma_attach_out_shape(oldl, sv, io);
            lemma_attach_in_shape(oldr, sv);
            let pos = attach_pos(oldl, io);
            let oldout = out_streams(oldl);
            let newout = out_streams(newl);
            let oldin = in_streams(oldr);
            let newin = in_streams(oldr).push(sv);
            // ids are untouched, so node lookup behaves as before
            assert forall|i: int| 0 <= i < p.nodes.len() implies elem_id(#[trigger] p.nodes[i])
                == elem_id(oldp.nodes[i]) by {}
            assert forall|id: u32| has_node(oldp, id) implies has_node(p, id) by {
                let i = node_index(oldp, id);
                assert(elem_id(p.nodes[i]) == id);
            }
            // every old edge is still present
            assert forall|a: u32, b: u32| has_edge(oldp, a, b) implies has_edge(p, a, b) by {
                let k = choose|k: int|
                    0 <= k < oldp.edges.len() && oldp.edges[k] == (Link { left: a, right: b });
                assert(p.edges[k] == (Link { left: a, right: b }));
            }
            // no old out stream of the left node leads to the new edge
            assert forall|m: int| 0 <= m < oldout.len() implies !(edge_stream_left(
                #[trigger] oldout[m],
            ) == left && edge_stream_right(oldout[m]) == right) by {
                assert(node_out_ok(oldp, li as int));
                if edge_stream_left(oldout[m]) == left && edge_stream_right(oldout[m]) == right {
                    assert(has_edge(oldp, left, right));
                }
            }
            // likewise for the right node's inputs
            assert forall|m: int| 0 <= m < oldin.len() implies !(edge_stream_left(
                #[trigger] oldin[m],
            ) == left && edge_stream_right(oldin[m]) == right) by {
                assert(node_in_ok(oldp, ri as int));
                if edge_stream_left(oldin[m]) == left && edge_stream_right(oldin[m]) == right {
                    assert(has_edge(oldp, left, right));
                }
            }
            assert(wf_nodes(p));
            assert forall|k: int| 0 <= k < p.edges.len() implies has_node(
                p,
                (#[trigger] p.edges[k]).left,
            ) && has_node(p, p.edges[k].right) && p.edges[k].left != p.edges[k].right by {
                if k < oldp.edges.len() {
                    assert(has_node(oldp, oldp.edges[k].left));
                    assert(has_node(oldp, oldp.edges[k].right));
                } else {
                    assert(p.edges[k] == newlink);
                    assert(has_node(oldp, left) && has_node(oldp, right));
                }
            }
            assert forall|k: int, l: int| 0 <= k < l < p.edges.len() implies #[trigger] p.edges[k]
                != #[trigger] p.edges[l] by {
                if l < oldp.edges.len() {
                } else {
                    assert(p.edges[l] == newlink);
                    if p.edges[k] == newlink {
                        assert(oldp.edges.contains(newlink)) by {
                            assert(oldp.edges[k] == newlink);
                        }
                        assert(has_edge(oldp, left, right));
                    }
                }
            }
            assert forall|i: int| 0 <= i < p.nodes.len() implies #[trigger] node_out_ok(p, i) by {
                if i == li {
                    assert forall|m: int|
                        0 <= m < out_streams(p.nodes[i]).len() implies {
                        let s = #[trigger] out_streams(p.nodes[i])[m];
                        &&& is_edge_stream(s)
                        &&& edge_stream_left(s) == elem_id(p.nodes[i])
                        &&& has_edge(p, edge_stream_left(s), edge_stream_right(s))
                    } by {
                        assert(node_out_ok(oldp, i));
                        if m == pos {
                            assert(out_streams(p.nodes[i])[m] == sv);
                            assert(has_edge(p, left, right)) by {
                                assert(p.edges[p.edges.len() - 1] == newlink);
                            }
                        } else if m < pos {
                            assert(out_streams(p.nodes[i])[m] == oldout[m]);
                        } else {
                            assert(out_streams(p.nodes[i])[m] == oldout[m - 1]);
                        }
                    }
                } else if i == ri {
                    assert(out_streams(p.nodes[i]) == out_streams(oldp.nodes[i]));
                    assert(node_out_ok(oldp, i));
                    assert forall|m: int|
                        0 <= m < out_streams(p.nodes[i]).len() implies {
                        let s = #[trigger] out_streams(p.nodes[i])[m];
                        &&& is_edge_stream(s)
                        &&& edge_stream_left(s) == elem_id(p.nodes[i])
                        &&& has_edge(p, edge_stream_left(s), edge_stream_right(s))
                    } by {
                        assert(out_streams(oldp.nodes[i])[m] == out_streams(p.nodes[i])[m]);
                    }
                } else {
                    assert(p.nodes[i] == oldp.nodes[i]);
                    assert(node_out_ok(oldp, i));
                    assert forall|m: int|
                        0 <= m < out_streams(p.nodes[i]).len() implies {
                        let s = #[trigger] out_streams(p.nodes[i])[m];
                        &&& is_edge_stream(s)
                        &&& edge_stream_left(s) == elem_id(p.nodes[i])
                        &&& has_edge(p, edge_stream_left(s), edge_stream_right(s))
                    } by {
                        assert(out_streams(oldp.nodes[i])[m] == out_streams(p.nodes[i])[m]);
                    }
                }
            }
            assert forall|i: int| 0 <= i < p.nodes.len() implies #[trigger] node_in_ok(p, i) by {
                if i == ri {
                    assert(in_streams(p.nodes[i]) == oldin.push(sv));
                    assert forall|m: int|
                        0 <= m < in_streams(p.nodes[i]).len() implies {
                        let s = #[trigger] in_streams(p.nodes[i])[m];
                        &&& is_edge_stream(s)
                        &&& edge_stream_right(s) == elem_id(p.nodes[i])
                        &&& has_edge(p, edge_stream_left(s), edge_stream_right(s))
                    } by {
                        assert(node_in_ok(oldp, i));
                        if m == oldin.len() {
                            assert(in_streams(p.nodes[i])[m] == sv);
                            assert(has_edge(p, left, right)) by {
                                assert(p.edges[p.edges.len() - 1] == newlink);
                            }
                        } else {
                            assert(in_streams(p.nodes[i])[m] == oldin[m]);
                        }
                    }
                } else {
                    let oldnode = oldp.nodes[i];
                    assert(in_streams(p.nodes[i]) == in_streams(oldnode));
                    assert(node_in_ok(oldp, i));
                    assert forall|m: int|
                        0 <= m < in_streams(p.nodes[i]).len() implies {
                        let s = #[trigger] in_streams(p.nodes[i])[m];
                        &&& is_edge_stream(s)
                        &&& edge_stream_right(s) == elem_id(p.nodes[i])
                        &&& has_edge(p, edge_stream_left(s), edge_stream_right(s))
                    } by {
                        assert(in_streams(oldnode)[m] == in_streams(p.nodes[i])[m]);
                    }
                }
            }
            assert forall|i: int| 0 <= i < p.nodes.len() implies #[trigger] node_out_unique(
                p,
                i,
            ) by {
                if i == li {
                    assert(node_out_unique(oldp, i));
                    assert forall|m: int, n: int|
                        0 <= m < n < out_streams(p.nodes[i]).len() implies !(edge_stream_left(
                        #[trigger] out_streams(p.nodes[i])[m],
                    ) == edge_stream_left(#[trigger] out_streams(p.nodes[i])[n])
                        && edge_stream_right(out_streams(p.nodes[i])[m]) == edge_stream_right(
                        out_streams(p.nodes[i])[n],
                    )) by {
                        let a = out_streams(p.nodes[i])[m];
                        let b = out_streams(p.nodes[i])[n];
                        if m == pos {
                            assert(a == sv);
                            assert(b == oldout[n - 1]);
                        } else if n == pos {
                            assert(b == sv);
                            assert(a == oldout[m]);
                        } else {
                            let m0: int = if m < pos {
                                m
                            } else {
                                m - 1
                            };
                            let n0: int = if n < pos {
                                n
                            } else {
                                n - 1
                            };
                            assert(a == oldout[m0] && b == oldout[n0] && 0 <= m0 < n0
                                < oldout.len());
                        }
                    }
                } else {
                    assert(out_streams(p.nodes[i]) == out_streams(oldp.nodes[i]));
                    assert(node_out_unique(oldp, i));
                }
            }
            assert forall|i: int| 0 <= i < p.nodes.len() implies #[trigger] node_in_unique(
                p,
                i,
            ) by {
                if i == ri {
                    assert(in_streams(p.nodes[i]) == oldin.push(sv));
                    assert(node_in_unique(oldp, i));
                    assert forall|m: int, n: int|
                        0 <= m < n < in_streams(p.nodes[i]).len() implies !(edge_stream_left(
                        #[trigger] in_streams(p.nodes[i])[m],
                    ) == edge_stream_left(#[trigger] in_streams(p.nodes[i])[n])
                        && edge_stream_right(in_streams(p.nodes[i])[m]) == edge_stream_right(
                        in_streams(p.nodes[i])[n],
                    )) by {
                        let a = in_streams(p.nodes[i])[m];
                        let b = in_streams(p.nodes[i])[n];
                        if n == oldin.len() {
                            assert(b == sv);
                            assert(a == oldin[m]);
                        } else {
                            assert(a == oldin[m] && b == oldin[n]);
                        }
                    }
                } else {
                    assert(in_streams(p.nodes[i]) == in_streams(oldp.nodes[i]));
                    assert(node_in_unique(oldp, i));
                }
            }
            assert forall|k: int| 0 <= k < p.edges.len() implies #[trigger] edge_backed(p, k) by {
                if k < oldp.edges.len() {
                    assert(edge_backed(oldp, k));
                    let (i, m, j, n): (int, int, int, int) = choose|i: int, m: int, j: int, n: int|
                        {
                            &&& 0 <= i < oldp.nodes.len()
                            &&& 0 <= j < oldp.nodes.len()
                            &&& 0 <= m < out_streams(oldp.nodes[i]).len()
                            &&& 0 <= n < in_streams(oldp.nodes[j]).len()
                            &&& elem_id(oldp.nodes[i]) == oldp.edges[k].left
                            &&& elem_id(oldp.nodes[j]) == oldp.edges[k].right
                            &&& #[trigger] out_streams(oldp.nodes[i])[m] == #[trigger] in_streams(
                                oldp.nodes[j],
                            )[n]
                            &&& edge_stream_left(out_streams(oldp.nodes[i])[m])
                                == oldp.edges[k].left
                            &&& edge_stream_right(out_streams(oldp.nodes[i])[m])
                                == oldp.edges[k].right
                        };
                    let m2: int = if i == li && m >= pos {
                        m + 1
                    } else {
                        m
                    };
                    assert(out_streams(p.nodes[i])[m2] == out_streams(oldp.nodes[i])[m]);
                    assert(in_streams(p.nodes[j])[n] == in_streams(oldp.nodes[j])[n]);
                    assert(0 <= m2 < out_streams(p.nodes[i]).len());
                    assert(p.edges[k] == oldp.edges[k]);
                } else {
                    assert(p.edges[k] == newlink);
                    assert(out_streams(p.nodes[li as int])[pos] == sv);
                    assert(in_streams(p.nodes[ri as int])[newin.len() - 1] == sv);
                    assert(elem_id(p.nodes[li as int]) == left);
                    assert(elem_id(p.nodes[ri as int]) == right);
                }
            }
            assert(can_add_pipe(oldp, left, right, io)) by {
                assert(node_of(oldp, left) == oldl);
                assert(node_of(oldp, right) == oldr);
            }
        }
        Ok(pipe)
    }
}



/// The program after resolving every file path in every node against a
/// parent directory.
pub open spec fn resolved_prog(parent: Seq<char>, p: ProgramView) -> ProgramView {
    ProgramView { nodes: p.nodes.map_values(|e: ElemView| resolved_elem(parent, e)), ..p }
}

/// Resolving a stream against the empty parent changes nothing.
pub proof fn lemma_resolved_stream_empty(s: DashStreamView)
    ensures
        resolved_stream(Seq::<char>::empty(), s) == s,
{
    match s {
        DashStreamView::File(fs) => {
            assert(resolved_stream(Seq::<char>::empty(), s) =~= s);
        },
        _ => {},
    }
}

/// Resolving a stream list against the empty parent changes nothing.
pub proof fn lemma_resolved_streams_empty(v: Seq<DashStreamView>)
    ensures
        resolved_streams(Seq::<char>::empty(), v) == v,
{
    assert forall|m: int| 0 <= m < v.len() implies resolved_streams(Seq::<char>::empty(), v)[m]
        == v[m] by {
        lemma_resolved_stream_empty(v[m]);
    }
    assert(resolved_streams(Seq::<char>::empty(), v) =~= v);
}

/// Resolving a node against the empty parent changes nothing.
pub proof fn lemma_resolved_elem_empty(e: ElemView)
    ensures
        resolved_elem(Seq::<char>::empty(), e) == e,
{
    let empty = Seq::<char>::empty();
    match e {
        ElemView::Cmd(c) => {
            lemma_resolved_streams_empty(c.stdin);
            lemma_resolved_streams_empty(c.stdout);
            lemma_resolved_streams_empty(c.stderr);
            assert forall|m: int| 0 <= m < c.args.len() implies resolved_args(empty, c.args)[m]
                == c.args[m] by {
                match c.args[m] {
                    crate::node::NodeArgView::Stream(fs) => {
                        assert(resolved_arg(empty, c.args[m]) =~= c.args[m]);
                    },
                    _ => {},
                }
            }
            assert(resolved_args(empty, c.args) =~= c.args);
            assert(resolved_elem(empty, e) =~= e);
        },
        ElemView::Read(r) => {
            match r.stdout {
                Some(s) => {
                    lemma_resolved_stream_empty(s);
                },
                None => {},
            }
            assert(resolved_elem(empty, e) =~= e);
        },
        ElemView::Write(w) => {
            lemma_resolved_streams_empty(w.stdin);
            lemma_resolved_streams_empty(w.output);
            assert(resolved_elem(empty, e) =~= e);
        },
    }
}

/// Resolving a whole program against the empty parent is a no-op.
pub proof fn lemma_resolved_prog_empty(p: ProgramView)
    ensures
        resolved_prog(Seq::<char>::empty(), p) == p,
{
    assert forall|i: int| 0 <= i < p.nodes.len() implies resolved_prog(
        Seq::<char>::empty(),
        p,
    ).nodes[i] == p.nodes[i] by {
        lemma_resolved_elem_empty(p.nodes[i]);
    }
    assert(resolved_prog(Seq::<char>::empty(), p) =~= p);
}

/// Resolving a stream twice against the same absolute parent equals
/// resolving it once.
pub proof fn lemma_resolved_stream_idem(parent: Seq<char>, s: DashStreamView)
    requires
        crate::stream::is_absolute_path(parent),
    ensures
        resolved_stream(parent, resolved_stream(parent, s)) == resolved_stream(parent, s),
{
    match s {
        DashStreamView::File(fs) => {
            crate::stream::lemma_resolved_path_idempotent(parent, fs.path);
            assert(resolved_stream(parent, resolved_stream(parent, s)) =~= resolved_stream(
                parent,
                s,
            ));
        },
        _ => {},
    }
}

/// Resolving a node twice against the same absolute parent equals
/// resolving it once.
pub proof fn lemma_resolved_elem_idem(parent: Seq<char>, e: ElemView)
    requires
        crate::stream::is_absolute_path(parent),
    ensures
        resolved_elem(parent, resolved_elem(parent, e)) == resolved_elem(parent, e),
{
    let once = resolved_elem(parent, e);
    let twice = resolved_elem(parent, once);
    match e {
        ElemView::Cmd(c) => {
            assert forall|m: int|
                0 <= m < c.stdin.len() implies resolved_streams(
                parent,
                resolved_streams(parent, c.stdin),
            )[m] == resolved_streams(parent, c.stdin)[m] by {
                lemma_resolved_stream_idem(parent, c.stdin[m]);
            }
            assert(resolved_streams(parent, resolved_streams(parent, c.stdin)) =~= resolved_streams(
                parent,
                c.stdin,
            ));
            assert forall|m: int|
                0 <= m < c.stdout.len() implies resolved_streams(
                parent,
                resolved_streams(parent, c.stdout),
            )[m] == resolved_streams(parent, c.stdout)[m] by {
                lemma_resolved_stream_idem(parent, c.stdout[m]);
            }
            assert(resolved_streams(parent, resolved_streams(parent, c.stdout))
                =~= resolved_streams(parent, c.stdout));
            assert forall|m: int|
                0 <= m < c.stderr.len() implies resolved_streams(
                parent,
                resolved_streams(parent, c.stderr),
            )[m] == resolved_streams(parent, c.stderr)[m] by {
                lemma_resolved_stream_idem(parent, c.stderr[m]);
            }
            assert(resolved_streams(parent, resolved_streams(parent, c.stderr))
                =~= resolved_streams(parent, c.stderr));
            assert forall|m: int|
                0 <= m < c.args.len() implies resolved_args(
                parent,
                resolved_args(parent, c.args),
            )[m] == resolved_args(parent, c.args)[m] by {
                match c.args[m] {
                    crate::node::NodeArgView::Stream(fs) => {
                        crate::stream::lemma_resolved_path_idempotent(parent, fs.path);
                        assert(resolved_arg(parent, resolved_arg(parent, c.args[m]))
                            =~= resolved_arg(parent, c.args[m]));
                    },
                    _ => {},
                }
            }
            assert(resolved_args(parent, resolved_args(parent, c.args)) =~= resolved_args(
                parent,
                c.args,
            ));
            assert(twice =~= once);
        },
        ElemView::Read(r) => {
            crate::stream::lemma_resolved_path_idempotent(parent, r.input.path);
            match r.stdout {
                Some(s) => {
                    lemma_resolved_stream_idem(parent, s);
                },
                None => {},
            }
            assert(twice =~= once);
        },
        ElemView::Write(w) => {
            assert forall|m: int|
                0 <= m < w.stdin.len() implies resolved_streams(
                parent,
                resolved_streams(parent, w.stdin),
            )[m] == resolved_streams(parent, w.stdin)[m] by {
                lemma_resolved_stream_idem(parent, w.stdin[m]);
            }
            assert(resolved_streams(parent, resolved_streams(parent, w.stdin)) =~= resolved_streams(
                parent,
                w.stdin,
            ));
            assert forall|m: int|
                0 <= m < w.output.len() implies resolved_streams(
                parent,
                resolved_streams(parent, w.output),
            )[m] == resolved_streams(parent, w.output)[m] by {
                lemma_resolved_stream_idem(parent, w.output[m]);
            }
            assert(resolved_streams(parent, resolved_streams(parent, w.output))
                =~= resolved_streams(parent, w.output));
            assert(twice =~= once);
        },
    }
}

/// Resolving a program twice against the same absolute parent equals
/// resolving it once: paths are prefixed exactly once.
pub proof fn lemma_resolved_prog_idempotent(parent: Seq<char>, p: ProgramView)
    requires
        crate::stream::is_absolute_path(parent),
    ensures
        resolved_prog(parent, resolved_prog(parent, p)) == resolved_prog(parent, p),
{
    let once = resolved_prog(parent, p);
    assert forall|i: int| 0 <= i < p.nodes.len() implies resolved_prog(parent, once).nodes[i]
        == once.nodes[i] by {
        lemma_resolved_elem_idem(parent, p.nodes[i]);
    }
    assert(resolved_prog(parent, once) =~= once);
}

impl Program {
    /// Resolve every relative file path in every node against a parent
    /// directory.  With an empty parent this is a no-op; the client
    /// passes the empty string, a server its scratch folder.
    pub fn resolve_args(&mut self, parent: &str)
        ensures
            final(self)@ == resolved_prog(parent@, old(self)@),
    {
        let mut i: usize = 0;
        #[verifier::loop_isolation(false)]
        while i < self.nodes.len()
            invariant
                i <= self.nodes.len(),
                self.nodes@.len() == old(self).nodes@.len(),
                self.prog_id == old(self).prog_id,
                self.counter == old(self).counter,
                self.edges@ == old(self).edges@,
                forall|j: int|
                    0 <= j < i ==> nodes_view(self.nodes@)[j] == resolved_elem(
                        parent@,
                        nodes_view(old(self).nodes@)[j],
                    ),
                forall|j: int|
                    i <= j < self.nodes@.len() ==> nodes_view(self.nodes@)[j] == nodes_view(
                        old(self).nodes@,
                    )[j],
            decreases self.nodes.len() - i,
        {
            let ghost prevseq = self.nodes@;
            let mut tmp = Elem::Write(crate::node::WriteNode::make());
            self.nodes.set_and_swap(i, &mut tmp);
            tmp.resolve_args(parent);
            self.nodes.set_and_swap(i, &mut tmp);
            proof {
                assert(self.nodes@ =~= prevseq.update(i as int, self.nodes@[i as int]));
                assert(self.nodes@[i as int]@ == resolved_elem(parent@, prevseq[i as int]@));
                assert(nodes_view(self.nodes@)[i as int] == resolved_elem(
                    parent@,
                    nodes_view(old(self).nodes@)[i as int],
                ));
                assert forall|j: int|
                    0 <= j < self.nodes@.len() && j != i implies nodes_view(self.nodes@)[j]
                    == nodes_view(prevseq)[j] by {}
                assert forall|j: int|
                    0 <= j < i + 1 implies nodes_view(self.nodes@)[j] == resolved_elem(
                    parent@,
                    nodes_view(old(self).nodes@)[j],
                ) by {
                    if j < i {
                        assert(nodes_view(self.nodes@)[j] == nodes_view(prevseq)[j]);
                        assert(nodes_view(prevseq)[j] == resolved_elem(
                            parent@,
                            nodes_view(old(self).nodes@)[j],
                        ));
                    }
                }
            }
            i = i + 1;
        }
        proof {
            assert(self@.nodes =~= resolved_prog(parent@, old(self)@).nodes);
            assert(self@ =~= resolved_prog(parent@, old(self)@));
        }
    }

    /// A structurally equal copy whose value the verifier knows.
    pub fn duplicate(&self) -> (r: Program)
        ensures
            r@ == self@,
    {
        let mut nodes: Vec<Elem> = Vec::new();
        let mut i: usize = 0;
        while i < self.nodes.len()
            invariant
                i <= self.nodes.len(),
                nodes@.len() == i,
                forall|j: int| 0 <= j < i ==> nodes@[j]@ == self.nodes@[j]@,
            decreases self.nodes.len() - i,
        {
            nodes.push(self.nodes[i].duplicate());
            i = i + 1;
        }
        let mut edges: Vec<Link> = Vec::new();
        let mut k: usize = 0;
        while k < self.edges.len()
            invariant
                k <= self.edges.len(),
                edges@ == self.edges@.take(k as int),
            decreases self.edges.len() - k,
        {
            edges.push(self.edges[k]);
            proof {
                assert(edges@ =~= self.edges@.take(k + 1));
            }
            k = k + 1;
        }
        let r = Program { prog_id: self.prog_id, counter: self.counter, nodes, edges };
        proof {
            assert(self.edges@.take(self.edges@.len() as int) =~= self.edges@);
            assert(r@.nodes =~= self@.nodes);
            assert(r@ =~= self@);
        }
        r
    }

    /// Every TCP stream this program must initiate from `loc`: the TCP
    /// streams among its nodes' produced streams whose sending side is
    /// `loc`, each listed once.  Used to drive the setup phase, which
    /// opens one connection per listed stream.
    pub fn get_outward_streams(&self, loc: &Location) -> (r: Vec<NetStream>)
        ensures
            forall|k1: int, k2: int| 0 <= k1 < k2 < r@.len() ==> (#[trigger] r@[k1])@ != (
            #[trigger] r@[k2])@,
            forall|k: int|
                0 <= k < r@.len() ==> (#[trigger] r@[k]@).sending_side == loc@ && exists|
                    i: int,
                    m: int,
                |
                    {
                        &&& 0 <= i < self@.nodes.len()
                        &&& 0 <= m < out_streams(self@.nodes[i]).len()
                        &&& #[trigger] out_streams(self@.nodes[i])[m] == DashStreamView::Tcp(
                            r@[k]@,
                        )
                    },
            forall|i: int, m: int|
                0 <= i < self@.nodes.len() && 0 <= m < out_streams(self@.nodes[i]).len() && (
                #[trigger] out_streams(self@.nodes[i])[m]) is Tcp && out_streams(
                    self@.nodes[i],
                )[m]->Tcp_0.sending_side == loc@ ==> exists|k: int|
                    0 <= k < r@.len() && DashStreamView::Tcp(#[trigger] r@[k]@) == out_streams(
                        self@.nodes[i],
                    )[m],
    {
        let mut r: Vec<NetStream> = Vec::new();
        let mut i: usize = 0;
        #[verifier::loop_isolation(false)]
        while i < self.nodes.len()
            invariant
                i <= self.nodes.len(),
                forall|k1: int, k2: int| 0 <= k1 < k2 < r@.len() ==> (#[trigger] r@[k1])@ != (
                #[trigger] r@[k2])@,
                forall|k: int|
                    0 <= k < r@.len() ==> (#[trigger] r@[k]@).sending_side == loc@ && exists|
                        i2: int,
                        m: int,
                    |
                        {
                            &&& 0 <= i2 < self@.nodes.len()
                            &&& 0 <= m < out_streams(self@.nodes[i2]).len()
                            &&& #[trigger] out_streams(self@.nodes[i2])[m] == DashStreamView::Tcp(
                                r@[k]@,
                            )
                        },
                forall|i2: int, m: int|
                    0 <= i2 < i && 0 <= m < out_streams(self@.nodes[i2]).len() && (
                    #[trigger] out_streams(self@.nodes[i2])[m]) is Tcp && out_streams(
                        self@.nodes[i2],
                    )[m]->Tcp_0.sending_side == loc@ ==> exists|k: int|
                        0 <= k < r@.len() && DashStreamView::Tcp(#[trigger] r@[k]@) == out_streams(
                            self@.nodes[i2],
                        )[m],
            decreases self.nodes.len() - i,
        {
            let ghost node = self@.nodes[i as int];
            match &self.nodes[i] {
                Elem::Cmd(c) => {
                    proof {
                        assert forall|m: int|
                            0 <= m < c.stdout@.len() implies 0 + m < out_streams(node).len()
                            && #[trigger] out_streams(node)[0 + m] == crate::node::streams_view(
                            c.stdout@,
                        )[m] by {}
                    }
                    collect_outward(&c.stdout, loc, &mut r, Ghost(self@), Ghost(i as int), Ghost(0));
                    let ghost rmid = r@;
                    proof {
                        assert forall|m: int|
                            0 <= m < c.stderr@.len() implies c.stdout@.len() + m < out_streams(
                            node,
                        ).len() && #[trigger] out_streams(node)[c.stdout@.len() + m]
                            == crate::node::streams_view(c.stderr@)[m] by {}
                    }
                    collect_outward(
                        &c.stderr,
                        loc,
                        &mut r,
                        Ghost(self@),
                        Ghost(i as int),
                        Ghost(c.stdout@.len() as int),
                    );
                    proof {
                        assert forall|m: int|
                            0 <= m < out_streams(node).len() && (#[trigger] out_streams(
                                node,
                            )[m]) is Tcp && out_streams(node)[m]->Tcp_0.sending_side
                            == loc@ implies exists|k: int|
                            0 <= k < r@.len() && DashStreamView::Tcp(#[trigger] r@[k]@)
                                == out_streams(node)[m] by {
                            if m < c.stdout@.len() {
                                assert(out_streams(node)[m] == crate::node::streams_view(
                                    c.stdout@,
                                )[m]);
                                let k = choose|k: int|
                                    0 <= k < rmid.len() && DashStreamView::Tcp(#[trigger] rmid[k]@)
                                        == crate::node::streams_view(c.stdout@)[m];
                                assert(r@[k] == rmid[k]);
                                assert(DashStreamView::Tcp(r@[k]@) == out_streams(node)[m]);
                            } else {
                                let m2 = m - c.stdout@.len();
                                assert(out_streams(node)[m] == crate::node::streams_view(
                                    c.stderr@,
                                )[m2]);
                                let k = choose|k: int|
                                    0 <= k < r@.len() && DashStreamView::Tcp(#[trigger] r@[k]@)
                                        == crate::node::streams_view(c.stderr@)[m2];
                                assert(DashStreamView::Tcp(r@[k]@) == out_streams(node)[m]);
                            }
                        }
                    }
                },
                Elem::Read(rd) => {
                    match &rd.stdout {
                        Some(DashStream::Tcp(n)) => {
                            let same = location_matches(n.get_sending_side(), loc);
                            if same && !contains_netstream(&r, n) {
                                let ghost prevr = r@;
                                r.push(n.duplicate());
                                proof {
                                    let kk = r@.len() - 1;
                                    assert(out_streams(node)[0] == DashStreamView::Tcp(r@[kk]@));
                                    assert forall|k: int| 0 <= k < prevr.len() implies r@[k]
                                        == prevr[k] by {}
                                }
                            } else if same {
                                proof {
                                    let kk = choose|kk: int|
                                        0 <= kk < r@.len() && (#[trigger] r@[kk])@ == n@;
                                    assert(DashStreamView::Tcp(r@[kk]@) == out_streams(node)[0]);
                                }
                            }
                        },
                        _ => {},
                    }
                },
                Elem::Write(_) => {},
            }
            i = i + 1;
        }
        r
    }
}

/// True when the two locations are the same machine.
pub fn location_matches(a: &Location, b: &Location) -> (r: bool)
    ensures
        r == (a@ == b@),
{
    match (a, b) {
        (Location::Client, Location::Client) => true,
        (Location::Server(x), Location::Server(y)) => *x == *y,
        _ => false,
    }
}

/// True when the two TCP streams are the same stream.
pub fn netstream_matches(a: &NetStream, b: &NetStream) -> (r: bool)
    ensures
        r == (a@ == b@),
{
    let r = a.get_left() == b.get_left() && a.get_right() == b.get_right() && a.get_output_type()
        == b.get_output_type() && location_matches(a.get_sending_side(), b.get_sending_side())
        && location_matches(a.get_receiving_side(), b.get_receiving_side());
    proof {
        if r {
            assert(a@ =~= b@);
        }
    }
    r
}

/// True when the list already carries this TCP stream.
fn contains_netstream(v: &Vec<NetStream>, n: &NetStream) -> (r: bool)
    ensures
        r == exists|k: int| 0 <= k < v@.len() && (#[trigger] v@[k])@ == n@,
{
    let mut k: usize = 0;
    #[verifier::loop_isolation(false)]
    while k < v.len()
        invariant
            k <= v@.len(),
            forall|j: int| 0 <= j < k ==> (#[trigger] v@[j])@ != n@,
        decreases v@.len() - k,
    {
        if netstream_matches(&v[k], n) {
            return true;
        }
        k = k + 1;
    }
    false
}

/// Append to `acc` every TCP stream of `list` whose sending side is
/// `loc` and is not already listed.  `off` is the offset of `list`
/// within the node's produced streams, so the contract can speak of
/// `out_streams`.
fn collect_outward(
    list: &Vec<DashStream>,
    loc: &Location,
    acc: &mut Vec<NetStream>,
    Ghost(p): Ghost<ProgramView>,
    Ghost(i): Ghost<int>,
    Ghost(off): Ghost<int>,
)
    requires
        0 <= i < p.nodes.len(),
        0 <= off,
        forall|m: int|
            0 <= m < list@.len() ==> off + m < out_streams(p.nodes[i]).len() && #[trigger] out_streams(
                p.nodes[i],
            )[off + m] == crate::node::streams_view(list@)[m],
        forall|k1: int, k2: int|
            0 <= k1 < k2 < old(acc)@.len() ==> (#[trigger] old(acc)@[k1])@ != (
            #[trigger] old(acc)@[k2])@,
        forall|k: int|
            0 <= k < old(acc)@.len() ==> (#[trigger] old(acc)@[k]@).sending_side == loc@ && exists|
                i2: int,
                m: int,
            |
                {
                    &&& 0 <= i2 < p.nodes.len()
                    &&& 0 <= m < out_streams(p.nodes[i2]).len()
                    &&& #[trigger] out_streams(p.nodes[i2])[m] == DashStreamView::Tcp(
                        old(acc)@[k]@,
                    )
                },
    ensures
        final(acc)@.len() >= old(acc)@.len(),
        forall|k: int| 0 <= k < old(acc)@.len() ==> final(acc)@[k] == old(acc)@[k],
        forall|k1: int, k2: int|
            0 <= k1 < k2 < final(acc)@.len() ==> (#[trigger] final(acc)@[k1])@ != (
            #[trigger] final(acc)@[k2])@,
        forall|k: int|
            0 <= k < final(acc)@.len() ==> (#[trigger] final(acc)@[k]@).sending_side == loc@
                && exists|i2: int, m: int|
                {
                    &&& 0 <= i2 < p.nodes.len()
                    &&& 0 <= m < out_streams(p.nodes[i2]).len()
                    &&& #[trigger] out_streams(p.nodes[i2])[m] == DashStreamView::Tcp(
                        final(acc)@[k]@,
                    )
                },
        forall|m: int|
            0 <= m < list@.len() && (#[trigger] crate::node::streams_view(list@)[m]) is Tcp
                && crate::node::streams_view(list@)[m]->Tcp_0.sending_side == loc@ ==> exists|
                k: int,
            |
                0 <= k < final(acc)@.len() && DashStreamView::Tcp(#[trigger] final(acc)@[k]@)
                    == crate::node::streams_view(list@)[m],
{
    let mut m: usize = 0;
    #[verifier::loop_isolation(false)]
    while m < list.len()
        invariant
            m <= list.len(),
            acc@.len() >= old(acc)@.len(),
            forall|k: int| 0 <= k < old(acc)@.len() ==> acc@[k] == old(acc)@[k],
            forall|k1: int, k2: int|
                0 <= k1 < k2 < acc@.len() ==> (#[trigger] acc@[k1])@ != (#[trigger] acc@[k2])@,
            forall|k: int|
                0 <= k < acc@.len() ==> (#[trigger] acc@[k]@).sending_side == loc@ && exists|
                    i2: int,
                    m2: int,
                |
                    {
                        &&& 0 <= i2 < p.nodes.len()
                        &&& 0 <= m2 < out_streams(p.nodes[i2]).len()
                        &&& #[trigger] out_streams(p.nodes[i2])[m2] == DashStreamView::Tcp(
                            acc@[k]@,
                        )
                    },
            forall|m2: int|
                0 <= m2 < m && (#[trigger] crate::node::streams_view(list@)[m2]) is Tcp
                    && crate::node::streams_view(list@)[m2]->Tcp_0.sending_side == loc@ ==> exists|
                    k: int,
                |
                    0 <= k < acc@.len() && DashStreamView::Tcp(#[trigger] acc@[k]@)
                        == crate::node::streams_view(list@)[m2],
        decreases list.len() - m,
    {
        let ghost prevacc = acc@;
        match &list[m] {
            DashStream::Tcp(n) => {
                let same = location_matches(n.get_sending_side(), loc);
                if same && !contains_netstream(acc, n) {
                    acc.push(n.duplicate());
                    proof {
                        let kk = acc@.len() - 1;
                        assert(crate::node::streams_view(list@)[m as int] == DashStreamView::Tcp(
                            acc@[kk]@,
                        ));
                        assert(out_streams(p.nodes[i])[off + m] == DashStreamView::Tcp(acc@[kk]@));
                    }
                } else if same {
                    proof {
                        let kk = choose|kk: int|
                            0 <= kk < acc@.len() && (#[trigger] acc@[kk])@ == n@;
                        assert(DashStreamView::Tcp(acc@[kk]@) == crate::node::streams_view(
                            list@,
                        )[m as int]);
                    }
                }
            },
            _ => {},
        }
        proof {
            assert forall|m2: int|
                0 <= m2 < m + 1 && (#[trigger] crate::node::streams_view(list@)[m2]) is Tcp
                    && crate::node::streams_view(list@)[m2]->Tcp_0.sending_side
                == loc@ implies exists|k: int|
                0 <= k < acc@.len() && DashStreamView::Tcp(#[trigger] acc@[k]@)
                    == crate::node::streams_view(list@)[m2] by {
                if m2 < m {
                    let k = choose|k: int|
                        0 <= k < prevacc.len() && DashStreamView::Tcp(#[trigger] prevacc[k]@)
                            == crate::node::streams_view(list@)[m2];
                    assert(acc@[k] == prevacc[k]);
                    assert(DashStreamView::Tcp(acc@[k]@) == crate::node::streams_view(list@)[m2]);
                } else {
                    assert(exists|k: int|
                        0 <= k < acc@.len() && DashStreamView::Tcp(#[trigger] acc@[k]@)
                            == crate::node::streams_view(list@)[m2]);
                }
            }
        }
        m = m + 1;
    }
}


/// The location a node is pinned to by its own file streams: a read
/// node by its input file, a write node by its first file output, a
/// command by its first resolvable path argument.  Nodes with no file
/// attachment are free and get a location by propagation.
pub open spec fn fixed_loc(e: ElemView) -> Option<LocationView> {
    match e {
        ElemView::Read(r) => Some(r.input.location),
        ElemView::Write(w) => first_file_loc(w.output),
        ElemView::Cmd(c) => first_stream_arg_loc(c.args),
    }
}

/// The location of the first file stream in a list.
pub open spec fn first_file_loc(v: Seq<DashStreamView>) -> Option<LocationView>
    decreases v.len(),
{
    if v.len() == 0 {
        None
    } else {
        match v[0] {
            DashStreamView::File(fs) => Some(fs.location),
            _ => first_file_loc(v.drop_first()),
        }
    }
}

/// The location of the first resolvable path argument.
pub open spec fn first_stream_arg_loc(v: Seq<crate::node::NodeArgView>) -> Option<LocationView>
    decreases v.len(),
{
    if v.len() == 0 {
        None
    } else {
        match v[0] {
            crate::node::NodeArgView::Stream(fs) => Some(fs.location),
            _ => first_stream_arg_loc(v.drop_first()),
        }
    }
}

/// A write node's file outputs must all live on one machine.
pub open spec fn write_locs_agree(e: ElemView) -> bool {
    match e {
        ElemView::Write(w) => forall|m: int, n: int|
            0 <= m < w.output.len() && 0 <= n < w.output.len() && (#[trigger] w.output[m]) is File
                && (#[trigger] w.output[n]) is File ==> w.output[m]->File_0.location
                == w.output[n]->File_0.location,
        _ => true,
    }
}

/// The views of a vector of locations.
pub open spec fn locs_view(v: Seq<Location>) -> Seq<LocationView> {
    v.map_values(|l: Location| l@)
}

/// True when an edge joins the two node ids, in either direction.
pub open spec fn id_neighbors(p: ProgramView, a: u32, b: u32) -> bool {
    has_edge(p, a, b) || has_edge(p, b, a)
}

/// The justification invariant of location propagation: every placed
/// entry of a free node carries the location of one of its neighbors'
/// placed entries.
pub open spec fn placement_justified(
    p: ProgramView,
    locs: Seq<Option<Location>>,
    n: int,
) -> bool {
    forall|i: int|
        0 <= i < n && fixed_loc(p.nodes[i]) is None && (#[trigger] locs[i]) is Some ==> exists|
            j: int,
        |
            0 <= j < n && #[trigger] id_neighbors(p, elem_id(p.nodes[i]), elem_id(p.nodes[j])) && (
            locs[j] matches Some(x) && x@ == locs[i]->0@)
}

impl Program {
    /// Choose an execution location for every node: file-pinned nodes
    /// keep their file's machine, free nodes take the location of their
    /// first placed neighbor in graph order, and nodes that no placed
    /// node reaches default to the client.  Fails when one write node
    /// would have to write files on two machines.
    pub fn assign_locations(&self) -> (r: Result<Vec<Location>, Error>)
        ensures
            match r {
                Ok(locs) => {
                    &&& locs@.len() == self@.nodes.len()
                    &&& forall|i: int|
                        0 <= i < self@.nodes.len() && (#[trigger] fixed_loc(
                            self@.nodes[i],
                        )) is Some ==> locs_view(locs@)[i] == fixed_loc(self@.nodes[i])->0
                    &&& forall|i: int|
                        0 <= i < self@.nodes.len() ==> write_locs_agree(#[trigger] self@.nodes[i])
                    &&& forall|i: int|
                        0 <= i < self@.nodes.len() && fixed_loc(self@.nodes[i]) is None && (
                        #[trigger] locs_view(locs@)[i]) != LocationView::Client ==> exists|j: int|
                            0 <= j < self@.nodes.len() && #[trigger] id_neighbors(
                                self@,
                                elem_id(self@.nodes[i]),
                                elem_id(self@.nodes[j]),
                            ) && locs_view(locs@)[j] == locs_view(locs@)[i]
                },
                Err(e) => e == Error::LocationConflict && exists|i: int|
                    0 <= i < self@.nodes.len() && !write_locs_agree(#[trigger] self@.nodes[i]),
            },
    {
        let n = self.nodes.len();
        let mut locs: Vec<Option<Location>> = Vec::new();
        let mut i: usize = 0;
        #[verifier::loop_isolation(false)]
        while i < n
            invariant
                i <= n,
                locs@.len() == i,
                forall|j: int|
                    0 <= j < i ==> match fixed_loc(self@.nodes[j]) {
                        Some(l) => (#[trigger] locs@[j] matches Some(el) && el@ == l),
                        None => locs@[j] is None,
                    },
                forall|j: int| 0 <= j < i ==> write_locs_agree(#[trigger] self@.nodes[j]),
            decreases n - i,
        {
            match node_fixed_loc(&self.nodes[i]) {
                Ok(found) => {
                    locs.push(found);
                },
                Err(e) => {
                    proof {
                        assert(!write_locs_agree(self@.nodes[i as int]));
                    }
                    return Err(e);
                },
            }
            i = i + 1;
        }
        // Propagate: a free node takes its first placed neighbor's
        // location, repeated until a full pass changes nothing.
        proof {
            assert forall|i0: int|
                0 <= i0 < n && fixed_loc(self@.nodes[i0]) is None && (
                #[trigger] locs@[i0]) is Some implies exists|j: int|
                0 <= j < n && #[trigger] id_neighbors(
                    self@,
                    elem_id(self@.nodes[i0]),
                    elem_id(self@.nodes[j]),
                ) && (locs@[j] matches Some(x) && x@ == locs@[i0]->0@) by {
                assert(locs@[i0] is None);
            }
        }
        let mut pass: usize = 0;
        #[verifier::loop_isolation(false)]
        while pass < n
            invariant
                locs@.len() == n,
                forall|j: int|
                    0 <= j < n && (#[trigger] fixed_loc(self@.nodes[j])) is Some ==> (locs@[j]
                        matches Some(el) && el@ == fixed_loc(self@.nodes[j])->0),
                placement_justified(self@, locs@, n as int),
            decreases n - pass,
        {
            let mut i2: usize = 0;
            #[verifier::loop_isolation(false)]
            while i2 < n
                invariant
                    locs@.len() == n,
                    forall|j: int|
                        0 <= j < n && (#[trigger] fixed_loc(self@.nodes[j])) is Some ==> (locs@[j]
                            matches Some(el) && el@ == fixed_loc(self@.nodes[j])->0),
                    placement_justified(self@, locs@, n as int),
                decreases n - i2,
            {
                let is_free = match &locs[i2] {
                    Some(_) => false,
                    None => true,
                };
                if is_free {
                    let id = self.nodes[i2].get_id();
                    match self.first_placed_neighbor(id, &locs) {
                        Some(l) => {
                            let ghost before = locs@;
                            locs.set(i2, Some(l));
                            proof {
                                assert forall|j: int|
                                    0 <= j < n && (#[trigger] fixed_loc(
                                        self@.nodes[j],
                                    )) is Some implies (locs@[j] matches Some(el) && el@
                                    == fixed_loc(self@.nodes[j])->0) by {
                                    if j != i2 {
                                        assert(locs@[j] == before[j]);
                                    } else {
                                        assert(before[j] is None);
                                    }
                                }
                                assert forall|i0: int|
                                    0 <= i0 < n && fixed_loc(self@.nodes[i0]) is None && (
                                    #[trigger] locs@[i0]) is Some implies exists|j: int|
                                    0 <= j < n && #[trigger] id_neighbors(
                                        self@,
                                        elem_id(self@.nodes[i0]),
                                        elem_id(self@.nodes[j]),
                                    ) && (locs@[j] matches Some(x) && x@ == locs@[i0]->0@) by {
                                    if i0 == i2 {
                                        let j = choose|j: int|
                                            0 <= j < n && #[trigger] id_neighbors(
                                                self@,
                                                elem_id(self@.nodes[i2 as int]),
                                                elem_id(self@.nodes[j]),
                                            ) && (before[j] matches Some(x) && x@ == l@);
                                        assert(locs@[j] == before[j]);
                                        assert(id_neighbors(
                                            self@,
                                            elem_id(self@.nodes[i0]),
                                            elem_id(self@.nodes[j]),
                                        ) && (locs@[j] matches Some(x) && x@ == locs@[i0]->0@));
                                    } else {
                                        assert(locs@[i0] == before[i0]);
                                        let j = choose|j: int|
                                            0 <= j < n && #[trigger] id_neighbors(
                                                self@,
                                                elem_id(self@.nodes[i0]),
                                                elem_id(self@.nodes[j]),
                                            ) && (before[j] matches Some(x) && x@ == before[i0]->0@);
                                        if j == i2 {
                                            assert(before[j] is None);
                                        }
                                        assert(locs@[j] == before[j]);
                                        assert(id_neighbors(
                                            self@,
                                            elem_id(self@.nodes[i0]),
                                            elem_id(self@.nodes[j]),
                                        ) && (locs@[j] matches Some(x) && x@ == locs@[i0]->0@));
                                    }
                                }
                            }
                        },
                        None => {},
                    }
                }
                i2 = i2 + 1;
            }
            pass = pass + 1;
        }
        // Unreached nodes default to the client.
        let mut out: Vec<Location> = Vec::new();
        let mut i3: usize = 0;
        #[verifier::loop_isolation(false)]
        while i3 < n
            invariant
                i3 <= n,
                out@.len() == i3,
                locs@.len() == n,
                forall|j: int|
                    0 <= j < n && (#[trigger] fixed_loc(self@.nodes[j])) is Some ==> (locs@[j]
                        matches Some(el) && el@ == fixed_loc(self@.nodes[j])->0),
                placement_justified(self@, locs@, n as int),
                forall|j: int|
                    0 <= j < i3 && (#[trigger] fixed_loc(self@.nodes[j])) is Some ==> locs_view(
                        out@,
                    )[j] == fixed_loc(self@.nodes[j])->0,
                forall|j: int|
                    0 <= j < i3 ==> locs_view(out@)[j] == (match #[trigger] locs@[j] {
                        Some(l) => l@,
                        None => LocationView::Client,
                    }),
            decreases n - i3,
        {
            match &locs[i3] {
                Some(l) => {
                    out.push(l.duplicate());
                },
                None => {
                    out.push(Location::Client);
                },
            }
            i3 = i3 + 1;
        }
        proof {
            assert forall|i0: int|
                0 <= i0 < n && fixed_loc(self@.nodes[i0]) is None && (#[trigger] locs_view(
                    out@,
                )[i0]) != LocationView::Client implies exists|j: int|
                0 <= j < n && #[trigger] id_neighbors(
                    self@,
                    elem_id(self@.nodes[i0]),
                    elem_id(self@.nodes[j]),
                ) && locs_view(out@)[j] == locs_view(out@)[i0] by {
                assert(locs@[i0] is Some);
                let j = choose|j: int|
                    0 <= j < n && #[trigger] id_neighbors(
                        self@,
                        elem_id(self@.nodes[i0]),
                        elem_id(self@.nodes[j]),
                    ) && (locs@[j] matches Some(x) && x@ == locs@[i0]->0@);
                assert(locs_view(out@)[j] == locs_view(out@)[i0]);
            }
        }
        Ok(out)
    }

    /// The location of the first already-placed neighbor of a node, in
    /// edge order.
    fn first_placed_neighbor(&self, id: u32, locs: &Vec<Option<Location>>) -> (r: Option<
        Location,
    >)
        requires
            locs@.len() == self@.nodes.len(),
        ensures
            r matches Some(l) ==> exists|j: int|
                0 <= j < self@.nodes.len() && #[trigger] id_neighbors(
                    self@,
                    id,
                    elem_id(self@.nodes[j]),
                ) && (locs@[j] matches Some(x) && x@ == l@),
    {
        let mut k: usize = 0;
        #[verifier::loop_isolation(false)]
        while k < self.edges.len()
            decreases self.edges.len() - k,
        {
            let e = self.edges[k];
            let other = if e.left == id {
                Some(e.right)
            } else if e.right == id {
                Some(e.left)
            } else {
                None
            };
            match other {
                Some(oid) => {
                    match self.find_node_index(oid) {
                        Some(oi) => {
                            match &locs[oi] {
                                Some(l) => {
                                    proof {
                                        assert(self@.edges.contains(self@.edges[k as int]));
                                        assert(id_neighbors(
                                            self@,
                                            id,
                                            elem_id(self@.nodes[oi as int]),
                                        ));
                                    }
                                    return Some(l.duplicate());
                                },
                                None => {},
                            }
                        },
                        None => {},
                    }
                },
                None => {},
            }
            k = k + 1;
        }
        None
    }
}

/// The location a node is pinned to, or a conflict error for a write
/// node whose file outputs live on different machines.
#[verifier::rlimit(100)]
fn node_fixed_loc(e: &Elem) -> (r: Result<Option<Location>, Error>)
    ensures
        match r {
            Ok(found) => write_locs_agree(e@) && (match fixed_loc(e@) {
                Some(l) => (found matches Some(el) && el@ == l),
                None => found is None,
            }),
            Err(err) => err == Error::LocationConflict && !write_locs_agree(e@),
        },
{
    match e {
        Elem::Read(rd) => Ok(Some(rd.input.get_location())),
        Elem::Cmd(c) => {
            proof {
                assert(crate::node::args_view(c.args@).skip(0) =~= crate::node::args_view(
                    c.args@,
                ));
            }
            let mut m: usize = 0;
            #[verifier::loop_isolation(false)]
            while m < c.args.len()
                invariant
                    m <= c.args@.len(),
                    first_stream_arg_loc(crate::node::args_view(c.args@)) == first_stream_arg_loc(
                        crate::node::args_view(c.args@).skip(m as int),
                    ),
                decreases c.args.len() - m,
            {
                let ghost argsv = crate::node::args_view(c.args@);
                proof {
                    assert(argsv.skip(m as int)[0] == argsv[m as int]);
                    assert(argsv.skip(m as int).drop_first() =~= argsv.skip(m + 1));
                }
                match &c.args[m] {
                    NodeArg::Stream(fs) => {
                        return Ok(Some(fs.get_location()));
                    },
                    NodeArg::Str(_) => {},
                }
                m = m + 1;
            }
            proof {
                assert(crate::node::args_view(c.args@).skip(c.args@.len() as int)
                    =~= Seq::<crate::node::NodeArgView>::empty());
            }
            Ok(None)
        },
        Elem::Write(w) => {
            proof {
                assert(crate::node::streams_view(w.output@).skip(0) =~= crate::node::streams_view(
                    w.output@,
                ));
            }
            let mut found: Option<Location> = None;
            let mut m: usize = 0;
            #[verifier::loop_isolation(false)]
            while m < w.output.len()
                invariant
                    m <= w.output@.len(),
                    match found {
                        Some(l) => (first_file_loc(crate::node::streams_view(w.output@)) matches Some(fl) && l@ == fl),
                        None => first_file_loc(crate::node::streams_view(w.output@))
                            == first_file_loc(crate::node::streams_view(w.output@).skip(m as int)),
                    },
                    forall|a: int, b: int|
                        0 <= a < m && 0 <= b < m && (#[trigger] crate::node::streams_view(
                            w.output@,
                        )[a]) is File && (#[trigger] crate::node::streams_view(
                            w.output@,
                        )[b]) is File ==> crate::node::streams_view(w.output@)[a]->File_0.location
                            == crate::node::streams_view(w.output@)[b]->File_0.location,
                    forall|a: int|
                        0 <= a < m && (#[trigger] crate::node::streams_view(w.output@)[a]) is File
                            ==> (found matches Some(l) && l@ == crate::node::streams_view(
                            w.output@,
                        )[a]->File_0.location),
                    found is Some ==> exists|a: int|
                        0 <= a < m && (#[trigger] crate::node::streams_view(w.output@)[a]) is File,
                decreases w.output.len() - m,
            {
                let ghost outv = crate::node::streams_view(w.output@);
                proof {
                    assert(outv.skip(m as int)[0] == outv[m as int]);
                    assert(outv.skip(m as int).drop_first() =~= outv.skip(m + 1));
                }
                match &w.output[m] {
                    DashStream::File(fs) => {
                        proof {
                            assert(crate::node::streams_view(w.output@)[m as int]
                                == DashStreamView::File(fs@));
                        }
                        match &found {
                            Some(l) => {
                                if !location_matches(l, &fs.location) {
                                    proof {
                                        let a = choose|a: int|
                                            0 <= a < m && (#[trigger] crate::node::streams_view(
                                                w.output@,
                                            )[a]) is File;
                                        assert(crate::node::streams_view(
                                            w.output@,
                                        )[a]->File_0.location != crate::node::streams_view(
                                            w.output@,
                                        )[m as int]->File_0.location);
                                    }
                                    return Err(Error::LocationConflict);
                                }
                            },
                            None => {
                                found = Some(fs.get_location());
                            },
                        }
                    },
                    _ => {},
                }
                m = m + 1;
            }
            proof {
                assert(crate::node::streams_view(w.output@).skip(w.output@.len() as int)
                    =~= Seq::<DashStreamView>::empty());
            }
            Ok(found)
        },
    }
}



/// The location assigned to the node with this id.
pub open spec fn assigned_loc(p: ProgramView, locs: Seq<LocationView>, id: u32) -> LocationView {
    locs[node_index(p, id)]
}

/// A stream after the cross-machine rewrite: a pipe whose endpoints
/// were placed on different machines becomes the TCP stream between
/// them; every other stream is unchanged.
#[verifier::opaque]
pub open spec fn split_stream(p: ProgramView, locs: Seq<LocationView>, s: DashStreamView) -> DashStreamView {
    match s {
        DashStreamView::Pipe(pp) => {
            let ll = assigned_loc(p, locs, pp.left);
            let rl = assigned_loc(p, locs, pp.right);
            if ll == rl {
                s
            } else {
                DashStreamView::Tcp(
                    NetStreamView {
                        left: pp.left,
                        right: pp.right,
                        io: pp.io,
                        sending_side: ll,
                        receiving_side: rl,
                    },
                )
            }
        },
        _ => s,
    }
}

/// A node after placement: it carries its assigned location and its
/// edge streams have been rewritten.
#[verifier::opaque]
pub open spec fn split_elem(
    p: ProgramView,
    locs: Seq<LocationView>,
    e: ElemView,
    myloc: LocationView,
) -> ElemView {
    match e {
        ElemView::Cmd(c) => ElemView::Cmd(
            CommandNodeView {
                stdin: c.stdin.map_values(|s: DashStreamView| split_stream(p, locs, s)),
                stdout: c.stdout.map_values(|s: DashStreamView| split_stream(p, locs, s)),
                stderr: c.stderr.map_values(|s: DashStreamView| split_stream(p, locs, s)),
                location: myloc,
                ..c
            },
        ),
        ElemView::Read(r) => ElemView::Read(
            ReadNodeView {
                stdout: match r.stdout {
                    Some(s) => Some(split_stream(p, locs, s)),
                    None => None,
                },
                location: myloc,
                ..r
            },
        ),
        ElemView::Write(w) => ElemView::Write(
            WriteNodeView {
                stdin: w.stdin.map_values(|s: DashStreamView| split_stream(p, locs, s)),
                location: myloc,
                ..w
            },
        ),
    }
}

/// The whole program after placement.
#[verifier::opaque]
pub open spec fn placed_prog(p: ProgramView, locs: Seq<LocationView>) -> ProgramView {
    ProgramView {
        nodes: Seq::new(p.nodes.len(), |i: int| split_elem(p, locs, p.nodes[i], locs[i])),
        ..p
    }
}

/// The number of nodes across all partitions.
pub open spec fn total_nodes(s: Seq<(Location, Program)>) -> int
    decreases s.len(),
{
    if s.len() == 0 {
        0
    } else {
        s[0].1@.nodes.len() + total_nodes(s.drop_first())
    }
}

/// The number of nodes across a vector of programs.
pub open spec fn total_prog_nodes(s: Seq<Program>) -> int
    decreases s.len(),
{
    if s.len() == 0 {
        0
    } else {
        s[0]@.nodes.len() + total_prog_nodes(s.drop_first())
    }
}




impl Program {
    /// Rewrite one stream for placement.
    fn rewrite_stream(&self, locs: &Vec<Location>, s: &DashStream) -> (r: DashStream)
        requires
            wf_nodes(self@),
            locs@.len() == self@.nodes.len(),
            s@ is Pipe ==> has_node(self@, s@->Pipe_0.left) && has_node(self@, s@->Pipe_0.right),
        ensures
            r@ == split_stream(self@, locs_view(locs@), s@),
    {
        proof {
            reveal(split_stream);
        }
        match s {
            DashStream::Pipe(pp) => {
                let li = match self.find_node_index(pp.left) {
                    Some(i) => i,
                    None => {
                        proof {
                            assert(false);
                        }
                        return s.duplicate();
                    },
                };
                let ri = match self.find_node_index(pp.right) {
                    Some(i) => i,
                    None => {
                        proof {
                            assert(false);
                        }
                        return s.duplicate();
                    },
                };
                proof {
                    lemma_node_of(self@, li as int);
                    lemma_node_of(self@, ri as int);
                }
                let ll = &locs[li];
                let rl = &locs[ri];
                if location_matches(ll, rl) {
                    DashStream::Pipe(*pp)
                } else {
                    DashStream::Tcp(
                        NetStream::new(pp.left, pp.right, pp.io, ll.duplicate(), rl.duplicate()),
                    )
                }
            },
            _ => s.duplicate(),
        }
    }

    /// Rewrite every stream of a list for placement.
    fn rewrite_stream_vec(&self, locs: &Vec<Location>, v: &Vec<DashStream>) -> (r: Vec<DashStream>)
        requires
            wf_nodes(self@),
            locs@.len() == self@.nodes.len(),
            forall|m: int|
                0 <= m < v@.len() && (#[trigger] v@[m]@) is Pipe ==> has_node(
                    self@,
                    v@[m]@->Pipe_0.left,
                ) && has_node(self@, v@[m]@->Pipe_0.right),
        ensures
            crate::node::streams_view(r@) == crate::node::streams_view(v@).map_values(
                |s: DashStreamView| split_stream(self@, locs_view(locs@), s),
            ),
    {
        let mut r: Vec<DashStream> = Vec::new();
        let mut i: usize = 0;
        #[verifier::loop_isolation(false)]
        while i < v.len()
            invariant
                i <= v.len(),
                r@.len() == i,
                forall|j: int|
                    0 <= j < i ==> #[trigger] r@[j]@ == split_stream(
                        self@,
                        locs_view(locs@),
                        v@[j]@,
                    ),
            decreases v.len() - i,
        {
            r.push(self.rewrite_stream(locs, &v[i]));
            i = i + 1;
        }
        proof {
            assert(crate::node::streams_view(r@) =~= crate::node::streams_view(v@).map_values(
                |s: DashStreamView| split_stream(self@, locs_view(locs@), s),
            ));
        }
        r
    }

    /// The placed copy of the node at index `i`.
    fn split_node(&self, locs: &Vec<Location>, i: usize) -> (r: Elem)
        requires
            wf(self@),
            locs@.len() == self@.nodes.len(),
            i < self@.nodes.len(),
        ensures
            r@ == split_elem(self@, locs_view(locs@), self@.nodes[i as int], locs_view(locs@)[i as int]),
    {
        proof {
            reveal(split_elem);
            assert(node_out_ok(self@, i as int));
            assert(node_in_ok(self@, i as int));
            assert forall|m: int|
                0 <= m < out_streams(self@.nodes[i as int]).len() && (#[trigger] out_streams(
                    self@.nodes[i as int],
                )[m]) is Pipe implies has_node(
                self@,
                out_streams(self@.nodes[i as int])[m]->Pipe_0.left,
            ) && has_node(self@, out_streams(self@.nodes[i as int])[m]->Pipe_0.right) by {
                let ss = out_streams(self@.nodes[i as int])[m];
                assert(has_edge(self@, edge_stream_left(ss), edge_stream_right(ss)));
                let k = choose|k: int|
                    0 <= k < self@.edges.len() && self@.edges[k] == (Link {
                        left: edge_stream_left(ss),
                        right: edge_stream_right(ss),
                    });
                assert(has_node(self@, (self@.edges[k]).left));
                assert(has_node(self@, (self@.edges[k]).right));
            }
            assert forall|m: int|
                0 <= m < in_streams(self@.nodes[i as int]).len() && (#[trigger] in_streams(
                    self@.nodes[i as int],
                )[m]) is Pipe implies has_node(
                self@,
                in_streams(self@.nodes[i as int])[m]->Pipe_0.left,
            ) && has_node(self@, in_streams(self@.nodes[i as int])[m]->Pipe_0.right) by {
                let ss = in_streams(self@.nodes[i as int])[m];
                assert(has_edge(self@, edge_stream_left(ss), edge_stream_right(ss)));
                let k = choose|k: int|
                    0 <= k < self@.edges.len() && self@.edges[k] == (Link {
                        left: edge_stream_left(ss),
                        right: edge_stream_right(ss),
                    });
                assert(has_node(self@, (self@.edges[k]).left));
                assert(has_node(self@, (self@.edges[k]).right));
            }
        }
        let myloc = locs[i].duplicate();
        let ghost node = self@.nodes[i as int];
        match &self.nodes[i] {
            Elem::Cmd(c) => {
                proof {
                    assert forall|m: int|
                        0 <= m < c.stdin@.len() && (#[trigger] c.stdin@[m]@) is Pipe implies has_node(
                        self@,
                        c.stdin@[m]@->Pipe_0.left,
                    ) && has_node(self@, c.stdin@[m]@->Pipe_0.right) by {
                        assert(crate::node::streams_view(c.stdin@)[m] == c.stdin@[m]@);
                        assert(in_streams(node)[m] == crate::node::streams_view(c.stdin@)[m]);
                    }
                    assert forall|m: int|
                        0 <= m < c.stdout@.len() && (#[trigger] c.stdout@[m]@) is Pipe implies has_node(
                        self@,
                        c.stdout@[m]@->Pipe_0.left,
                    ) && has_node(self@, c.stdout@[m]@->Pipe_0.right) by {
                        assert(crate::node::streams_view(c.stdout@)[m] == c.stdout@[m]@);
                        assert(out_streams(node)[m] == crate::node::streams_view(c.stdout@)[m]);
                    }
                    assert forall|m: int|
                        0 <= m < c.stderr@.len() && (#[trigger] c.stderr@[m]@) is Pipe implies has_node(
                        self@,
                        c.stderr@[m]@->Pipe_0.left,
                    ) && has_node(self@, c.stderr@[m]@->Pipe_0.right) by {
                        assert(crate::node::streams_view(c.stderr@)[m] == c.stderr@[m]@);
                        assert(out_streams(node)[c.stdout@.len() + m] == crate::node::streams_view(
                            c.stderr@,
                        )[m]);
                    }
                }
                let r = Elem::Cmd(
                    CommandNode {
                        node_id: c.node_id,
                        prog_id: c.prog_id,
                        name: c.name.clone(),
                        args: duplicate_args(&c.args),
                        stdin: self.rewrite_stream_vec(locs, &c.stdin),
                        stdout: self.rewrite_stream_vec(locs, &c.stdout),
                        stderr: self.rewrite_stream_vec(locs, &c.stderr),
                        location: myloc,
                    },
                );
                proof {
                    assert(r@ =~= split_elem(
                        self@,
                        locs_view(locs@),
                        node,
                        locs_view(locs@)[i as int],
                    ));
                }
                r
            },
            Elem::Read(rd) => {
                let out = match &rd.stdout {
                    Some(ss) => {
                        proof {
                            assert(out_streams(node)[0] == ss@);
                        }
                        Some(self.rewrite_stream(locs, ss))
                    },
                    None => None,
                };
                let r = Elem::Read(
                    ReadNode {
                        node_id: rd.node_id,
                        prog_id: rd.prog_id,
                        input: rd.input.duplicate(),
                        stdout: out,
                        location: myloc,
                    },
                );
                proof {
                    assert(r@ =~= split_elem(
                        self@,
                        locs_view(locs@),
                        node,
                        locs_view(locs@)[i as int],
                    ));
                }
                r
            },
            Elem::Write(w) => {
                proof {
                    assert forall|m: int|
                        0 <= m < w.stdin@.len() && (#[trigger] w.stdin@[m]@) is Pipe implies has_node(
                        self@,
                        w.stdin@[m]@->Pipe_0.left,
                    ) && has_node(self@, w.stdin@[m]@->Pipe_0.right) by {
                        assert(crate::node::streams_view(w.stdin@)[m] == w.stdin@[m]@);
                        assert(in_streams(node)[m] == crate::node::streams_view(w.stdin@)[m]);
                    }
                }
                let r = Elem::Write(
                    WriteNode {
                        node_id: w.node_id,
                        prog_id: w.prog_id,
                        stdin: self.rewrite_stream_vec(locs, &w.stdin),
                        output: crate::node::duplicate_streams(&w.output),
                        location: myloc,
                    },
                );
                proof {
                    assert(r@ =~= split_elem(
                        self@,
                        locs_view(locs@),
                        node,
                        locs_view(locs@)[i as int],
                    ));
                }
                r
            },
        }
    }
}

/// A copy of an argument vector whose views the verifier knows.
fn duplicate_args(v: &Vec<NodeArg>) -> (r: Vec<NodeArg>)
    ensures
        crate::node::args_view(r@) == crate::node::args_view(v@),
{
    let mut r: Vec<NodeArg> = Vec::new();
    let mut i: usize = 0;
    while i < v.len()
        invariant
            i <= v.len(),
            r@.len() == i,
            forall|j: int| 0 <= j < i ==> r@[j]@ == v@[j]@,
        decreases v.len() - i,
    {
        let a = match &v[i] {
            NodeArg::Str(w) => NodeArg::Str(w.clone()),
            NodeArg::Stream(fs) => NodeArg::Stream(fs.duplicate()),
        };
        r.push(a);
        i = i + 1;
    }
    proof {
        assert(crate::node::args_view(r@) =~= crate::node::args_view(v@));
    }
    r
}



/// What split-by-machine guarantees about its partitions, given the
/// location of every node: partition keys are distinct machines, node
/// count is conserved, every partition node is a placed node of the
/// source whose assigned location is the partition's key and every
/// placed node lands in a partition, partitions inherit the program id
/// and counter, and a partition holds exactly the edges both of whose
/// endpoints were assigned its machine.
/// The partition node at `(pi, j)` is a placed node of the source
/// whose assigned machine is the partition's key.
pub open spec fn part_node_src(
    p: ProgramView,
    lv: Seq<LocationView>,
    parts: Seq<(Location, Program)>,
    pi: int,
    j: int,
) -> bool {
    exists|i: int|
        0 <= i < p.nodes.len() && parts[pi].1@.nodes[j] == #[trigger] placed_prog(p, lv).nodes[i]
            && lv[i] == parts[pi].0@
}

/// The placed node at `i0` appears in a partition keyed by its machine.
pub open spec fn parts_cover(
    p: ProgramView,
    lv: Seq<LocationView>,
    parts: Seq<(Location, Program)>,
    i0: int,
) -> bool {
    exists|pi: int, j: int|
        #![trigger parts[pi].1@.nodes[j]]
        0 <= pi < parts.len() && 0 <= j < parts[pi].1@.nodes.len() && parts[pi].1@.nodes[j]
            == placed_prog(p, lv).nodes[i0] && parts[pi].0@ == lv[i0]
}

pub open spec fn split_parts_ok(
    p: ProgramView,
    lv: Seq<LocationView>,
    parts: Seq<(Location, Program)>,
) -> bool {
    let placed = placed_prog(p, lv);
    &&& forall|a: int, b: int| 0 <= a < b < parts.len() ==> (#[trigger] parts[a]).0@ != (#[trigger] parts[b]).0@
    &&& total_nodes(parts) == p.nodes.len()
    &&& forall|pi: int, j: int|
        0 <= pi < parts.len() && 0 <= j < parts[pi].1@.nodes.len() ==> #[trigger] part_node_src(
            p,
            lv,
            parts,
            pi,
            j,
        )
    &&& forall|i: int| 0 <= i < p.nodes.len() ==> #[trigger] parts_cover(p, lv, parts, i)
    &&& forall|pi: int|
        0 <= pi < parts.len() ==> (#[trigger] parts[pi]).1@.prog_id == p.prog_id
            && parts[pi].1@.counter == p.counter
    &&& forall|pi: int, k: int|
        #![trigger parts[pi].1@.edges[k]]
        0 <= pi < parts.len() && 0 <= k < parts[pi].1@.edges.len() ==> {
            let e = parts[pi].1@.edges[k];
            &&& p.edges.contains(e)
            &&& assigned_loc(p, lv, e.left) == parts[pi].0@
            &&& assigned_loc(p, lv, e.right) == parts[pi].0@
        }
    &&& forall|k: int|
        0 <= k < p.edges.len() && assigned_loc(p, lv, (#[trigger] p.edges[k]).left) == assigned_loc(
            p,
            lv,
            p.edges[k].right,
        ) ==> exists|pi: int|
            0 <= pi < parts.len() && (#[trigger] parts[pi]).0@ == assigned_loc(
                p,
                lv,
                p.edges[k].left,
            ) && parts[pi].1@.edges.contains(p.edges[k])
}

/// The node lists of a vector of partition programs.
pub open spec fn prog_node_seqs(progs: Seq<Program>) -> Seq<Seq<ElemView>> {
    progs.map_values(|q: Program| q@.nodes)
}

/// The number of nodes across a vector of node lists.
pub open spec fn total_nseq(ns: Seq<Seq<ElemView>>) -> int
    decreases ns.len(),
{
    if ns.len() == 0 {
        0
    } else {
        ns[0].len() + total_nseq(ns.drop_first())
    }
}

/// Appending a node list adds its length to the total.
pub proof fn lemma_total_nseq_push(ns: Seq<Seq<ElemView>>, q: Seq<ElemView>)
    ensures
        total_nseq(ns.push(q)) == total_nseq(ns) + q.len(),
    decreases ns.len(),
{
    assert(ns.push(q).len() == ns.len() + 1);
    if ns.len() == 0 {
        assert(ns.push(q)[0] == q);
        assert(ns.push(q).drop_first() =~= Seq::<Seq<ElemView>>::empty());
        assert(total_nseq(ns.push(q)) == q.len() + total_nseq(ns.push(q).drop_first()));
    } else {
        assert(ns.push(q)[0] == ns[0]);
        assert(ns.push(q).drop_first() =~= ns.drop_first().push(q));
        lemma_total_nseq_push(ns.drop_first(), q);
    }
}

/// Replacing a node list changes the total by the difference.
pub proof fn lemma_total_nseq_update(ns: Seq<Seq<ElemView>>, j: int, q: Seq<ElemView>)
    requires
        0 <= j < ns.len(),
    ensures
        total_nseq(ns.update(j, q)) == total_nseq(ns) - ns[j].len() + q.len(),
    decreases ns.len(),
{
    if j == 0 {
        assert(ns.update(0, q).drop_first() =~= ns.drop_first());
    } else {
        assert(ns.update(j, q).drop_first() =~= ns.drop_first().update(j - 1, q));
        lemma_total_nseq_update(ns.drop_first(), j - 1, q);
    }
}

/// The two total counts agree.
pub proof fn lemma_total_prog_eq_nseq(progs: Seq<Program>)
    ensures
        total_prog_nodes(progs) == total_nseq(prog_node_seqs(progs)),
    decreases progs.len(),
{
    if progs.len() > 0 {
        assert(prog_node_seqs(progs)[0] == progs[0]@.nodes);
        assert(prog_node_seqs(progs).drop_first() =~= prog_node_seqs(progs.drop_first()));
        lemma_total_prog_eq_nseq(progs.drop_first());
    }
}

impl Program {
    /// The placed node at `i0` has been grouped under its machine's key.
    pub open spec fn core_cover(
        p: ProgramView,
        lv: Seq<LocationView>,
        keys: Seq<Location>,
        ns: Seq<Seq<ElemView>>,
        i0: int,
    ) -> bool {
        exists|pi: int, j: int|
            #![trigger ns[pi][j]]
            0 <= pi < ns.len() && 0 <= j < ns[pi].len() && ns[pi][j] == placed_prog(
                p,
                lv,
            ).nodes[i0] && keys[pi]@ == lv[i0]
    }

    /// The grouping invariant over bare node lists, after the first
    /// `upto` placed nodes: distinct machine keys, node count
    /// conserved, every grouped node is a placed node whose machine is
    /// its group's key, and every processed placed node is grouped.
    pub open spec fn parts_nodes_core(
        p: ProgramView,
        lv: Seq<LocationView>,
        keys: Seq<Location>,
        ns: Seq<Seq<ElemView>>,
        upto: int,
    ) -> bool {
        &&& keys.len() == ns.len()
        &&& forall|a: int, b: int|
            0 <= a < b < keys.len() ==> (#[trigger] keys[a])@ != (#[trigger] keys[b])@
        &&& total_nseq(ns) == upto
        &&& forall|pi: int, j: int|
            #![trigger ns[pi][j]]
            0 <= pi < ns.len() && 0 <= j < ns[pi].len() ==> exists|i0: int|
                0 <= i0 < upto && ns[pi][j] == #[trigger] placed_prog(p, lv).nodes[i0] && lv[i0]
                    == keys[pi]@
        &&& forall|i0: int| 0 <= i0 < upto ==> #[trigger] Self::core_cover(p, lv, keys, ns, i0)
    }

    /// The node-phase invariant of the partitioner: the grouping
    /// invariant over the partitions' node lists, and every partition
    /// carrying the source's program id and counter.
    pub open spec fn parts_nodes_inv(
        p: ProgramView,
        lv: Seq<LocationView>,
        keys: Seq<Location>,
        progs: Seq<Program>,
        upto: int,
    ) -> bool {
        &&& Self::parts_nodes_core(p, lv, keys, prog_node_seqs(progs), upto)
        &&& forall|pi: int|
            0 <= pi < progs.len() ==> (#[trigger] progs[pi])@.prog_id == p.prog_id && (
            progs[pi])@.counter == p.counter
    }

    /// The node-phase invariant, completed.
    pub open spec fn parts_nodes_ok(
        p: ProgramView,
        lv: Seq<LocationView>,
        keys: Seq<Location>,
        progs: Seq<Program>,
    ) -> bool {
        Self::parts_nodes_inv(p, lv, keys, progs, p.nodes.len() as int)
    }

    /// Appending a placed node to the group that already carries its
    /// machine preserves the grouping invariant.
    #[verifier::rlimit(100)]
    #[verifier::spinoff_prover]
    proof fn lemma_core_insert_existing(
        p: ProgramView,
        lv: Seq<LocationView>,
        keys: Seq<Location>,
        prevns: Seq<Seq<ElemView>>,
        jx: int,
        i: int,
    )
        requires
            Self::parts_nodes_core(p, lv, keys, prevns, i),
            0 <= i < p.nodes.len(),
            0 <= jx < prevns.len(),
            keys[jx]@ == lv[i],
        ensures
            Self::parts_nodes_core(
                p,
                lv,
                keys,
                prevns.update(jx, prevns[jx].push(placed_prog(p, lv).nodes[i])),
                i + 1,
            ),
    {
        let newns = prevns.update(jx, prevns[jx].push(placed_prog(p, lv).nodes[i]));
        lemma_total_nseq_update(prevns, jx, prevns[jx].push(placed_prog(p, lv).nodes[i]));
        assert forall|pi: int, j: int|
            #![trigger newns[pi][j]]
            0 <= pi < newns.len() && 0 <= j < newns[pi].len() implies exists|i0: int|
            0 <= i0 < i + 1 && newns[pi][j] == #[trigger] placed_prog(p, lv).nodes[i0] && lv[i0]
                == keys[pi]@ by {
            if pi == jx && j == prevns[jx].len() {
                assert(newns[pi][j] == placed_prog(p, lv).nodes[i] && lv[i] == keys[pi]@);
            } else {
                assert(0 <= j < prevns[pi].len());
                assert(prevns[pi][j] == newns[pi][j]);
                let i0 = choose|i0: int|
                    0 <= i0 < i && prevns[pi][j] == #[trigger] placed_prog(p, lv).nodes[i0] && lv[
                    i0] == keys[pi]@;
                assert(newns[pi][j] == placed_prog(p, lv).nodes[i0] && lv[i0] == keys[pi]@);
            }
        }
        assert forall|i0: int| 0 <= i0 < i + 1 implies #[trigger] Self::core_cover(
            p,
            lv,
            keys,
            newns,
            i0,
        ) by {
            if i0 == i {
                let j = prevns[jx].len() as int;
                assert(0 <= jx < newns.len() && 0 <= j < newns[jx].len() && newns[jx][j]
                    == placed_prog(p, lv).nodes[i0] && keys[jx]@ == lv[i0]);
            } else {
                assert(Self::core_cover(p, lv, keys, prevns, i0));
                let (pi, j): (int, int) = choose|pi: int, j: int|
                    #![trigger prevns[pi][j]]
                    0 <= pi < prevns.len() && 0 <= j < prevns[pi].len() && prevns[pi][j]
                        == placed_prog(p, lv).nodes[i0] && keys[pi]@ == lv[i0];
                assert(newns[pi].len() >= prevns[pi].len());
                assert(newns[pi][j] == placed_prog(p, lv).nodes[i0]);
            }
        }
    }

    /// Opening a group for a machine no processed node used yet
    /// preserves the grouping invariant.
    #[verifier::rlimit(100)]
    #[verifier::spinoff_prover]
    proof fn lemma_core_insert_fresh(
        p: ProgramView,
        lv: Seq<LocationView>,
        prevkeys: Seq<Location>,
        newkeys: Seq<Location>,
        prevns: Seq<Seq<ElemView>>,
        i: int,
    )
        requires
            Self::parts_nodes_core(p, lv, prevkeys, prevns, i),
            0 <= i < p.nodes.len(),
            forall|a: int| 0 <= a < prevkeys.len() ==> (#[trigger] prevkeys[a])@ != lv[i],
            newkeys.len() == prevkeys.len() + 1,
            forall|a: int| 0 <= a < prevkeys.len() ==> #[trigger] newkeys[a] == prevkeys[a],
            newkeys[newkeys.len() - 1]@ == lv[i],
        ensures
            Self::parts_nodes_core(
                p,
                lv,
                newkeys,
                prevns.push(seq![placed_prog(p, lv).nodes[i]]),
                i + 1,
            ),
    {
        let newns = prevns.push(seq![placed_prog(p, lv).nodes[i]]);
        let np = newns.len() - 1;
        lemma_total_nseq_push(prevns, seq![placed_prog(p, lv).nodes[i]]);
        assert forall|pi: int, j: int|
            #![trigger newns[pi][j]]
            0 <= pi < newns.len() && 0 <= j < newns[pi].len() implies exists|i0: int|
            0 <= i0 < i + 1 && newns[pi][j] == #[trigger] placed_prog(p, lv).nodes[i0] && lv[i0]
                == newkeys[pi]@ by {
            if pi == np {
                assert(newns[pi][j] == placed_prog(p, lv).nodes[i] && lv[i] == newkeys[pi]@);
            } else {
                assert(newns[pi] == prevns[pi]);
                let i0 = choose|i0: int|
                    0 <= i0 < i && prevns[pi][j] == #[trigger] placed_prog(p, lv).nodes[i0] && lv[
                    i0] == prevkeys[pi]@;
                assert(newns[pi][j] == placed_prog(p, lv).nodes[i0] && lv[i0] == newkeys[pi]@);
            }
        }
        assert forall|i0: int| 0 <= i0 < i + 1 implies #[trigger] Self::core_cover(
            p,
            lv,
            newkeys,
            newns,
            i0,
        ) by {
            if i0 == i {
                assert(0 <= np < newns.len() && 0 <= 0 < newns[np].len() && newns[np][0]
                    == placed_prog(p, lv).nodes[i0] && newkeys[np]@ == lv[i0]);
            } else {
                assert(Self::core_cover(p, lv, prevkeys, prevns, i0));
                let (pi, j): (int, int) = choose|pi: int, j: int|
                    #![trigger prevns[pi][j]]
                    0 <= pi < prevns.len() && 0 <= j < prevns[pi].len() && prevns[pi][j]
                        == placed_prog(p, lv).nodes[i0] && prevkeys[pi]@ == lv[i0];
                assert(newns[pi] == prevns[pi]);
                assert(newns[pi][j] == placed_prog(p, lv).nodes[i0]);
                assert(newkeys[pi]@ == lv[i0]);
            }
        }
        assert forall|a: int, b: int|
            0 <= a < b < newkeys.len() implies (#[trigger] newkeys[a])@ != (
        #[trigger] newkeys[b])@ by {
            if b == newkeys.len() - 1 {
                assert(newkeys[a] == prevkeys[a]);
            }
        }
    }

    /// Group the placed nodes by machine.
    #[verifier::rlimit(100)]
    #[verifier::spinoff_prover]
    fn partition_nodes(&self, locs: &Vec<Location>) -> (r: (Vec<Location>, Vec<Program>))
        requires
            wf(self@),
            locs@.len() == self@.nodes.len(),
        ensures
            Self::parts_nodes_ok(self@, locs_view(locs@), r.0@, r.1@),
            forall|pi: int| 0 <= pi < r.1@.len() ==> (#[trigger] r.1@[pi])@.edges.len() == 0,
    {
        let ghost p = self@;
        let ghost lv = locs_view(locs@);
        let n = self.nodes.len();
        let mut keys: Vec<Location> = Vec::new();
        let mut progs: Vec<Program> = Vec::new();
        let mut i: usize = 0;
        #[verifier::loop_isolation(false)]
        while i < n
            invariant
                i <= n,
                Self::parts_nodes_inv(p, lv, keys@, progs@, i as int),
                forall|pi: int|
                    0 <= pi < progs@.len() ==> (#[trigger] progs@[pi])@.edges.len() == 0,
            decreases n - i,
        {
            let el = self.split_node(locs, i);
            proof {
                reveal(placed_prog);
                assert(el@ == placed_prog(p, lv).nodes[i as int]);
            }
            let mut found: Option<usize> = None;
            let mut j: usize = 0;
            #[verifier::loop_isolation(false)]
            while j < keys.len()
                invariant
                    j <= keys@.len(),
                    found is None,
                    forall|a: int| 0 <= a < j ==> (#[trigger] keys@[a])@ != lv[i as int],
                decreases keys@.len() - j,
            {
                if location_matches(&keys[j], &locs[i]) {
                    found = Some(j);
                    break ;
                }
                j = j + 1;
            }
            match found {
                Some(jj) => {
                    let ghost prevns = prog_node_seqs(progs@);
                    let ghost prevprogs = progs@;
                    let mut tmp = Program::make(0);
                    progs.set_and_swap(jj, &mut tmp);
                    tmp.nodes.push(el);
                    progs.set_and_swap(jj, &mut tmp);
                    proof {
                        let jx = jj as int;
                        Self::lemma_core_insert_existing(p, lv, keys@, prevns, jx, i as int);
                        assert(progs@ =~= prevprogs.update(jx, progs@[jx]));
                        assert(progs@[jx]@.nodes =~= prevns[jx].push(
                            placed_prog(p, lv).nodes[i as int],
                        ));
                        assert forall|pi: int|
                            0 <= pi < progs@.len() && pi != jx implies prog_node_seqs(progs@)[pi]
                            == prevns[pi] by {
                            assert(progs@[pi] == prevprogs[pi]);
                        }
                        assert(prog_node_seqs(progs@) =~= prevns.update(
                            jx,
                            prevns[jx].push(placed_prog(p, lv).nodes[i as int]),
                        ));
                        assert forall|pi: int|
                            0 <= pi < progs@.len() implies (#[trigger] progs@[pi])@.prog_id
                            == p.prog_id && (progs@[pi])@.counter == p.counter && (
                        progs@[pi])@.edges.len() == 0 by {
                            if pi != jx {
                                assert(progs@[pi] == prevprogs[pi]);
                            }
                        }
                    }
                },
                None => {
                    let ghost prevns = prog_node_seqs(progs@);
                    let ghost prevprogs = progs@;
                    let ghost prevkeys = keys@;
                    keys.push(locs[i].duplicate());
                    let mut fresh = Program {
                        prog_id: self.prog_id,
                        counter: self.counter,
                        nodes: Vec::new(),
                        edges: Vec::new(),
                    };
                    fresh.nodes.push(el);
                    progs.push(fresh);
                    proof {
                        Self::lemma_core_insert_fresh(p, lv, prevkeys, keys@, prevns, i as int);
                        assert(progs@ =~= prevprogs.push(progs@[progs@.len() - 1]));
                        assert(progs@[progs@.len() - 1]@.nodes =~= seq![
                            placed_prog(p, lv).nodes[i as int]
                        ]);
                        assert forall|pi: int|
                            0 <= pi < prevprogs.len() implies prog_node_seqs(progs@)[pi]
                            == prevns[pi] by {
                            assert(progs@[pi] == prevprogs[pi]);
                        }
                        assert(prog_node_seqs(progs@) =~= prevns.push(
                            seq![placed_prog(p, lv).nodes[i as int]],
                        ));
                        assert forall|pi: int|
                            0 <= pi < progs@.len() implies (#[trigger] progs@[pi])@.prog_id
                            == p.prog_id && (progs@[pi])@.counter == p.counter && (
                        progs@[pi])@.edges.len() == 0 by {
                            if pi < prevprogs.len() {
                                assert(progs@[pi] == prevprogs[pi]);
                            }
                        }
                    }
                },
            }
            i = i + 1;
        }
        (keys, progs)
    }

    /// The edge-phase invariant after the first `upto` edges have been
    /// considered: every distributed edge is an edge of the source
    /// whose endpoints were both assigned the partition's machine, and
    /// every considered within-machine edge has been distributed.
    pub open spec fn parts_edges_inv(
        p: ProgramView,
        lv: Seq<LocationView>,
        keys: Seq<Location>,
        progs: Seq<Program>,
        upto: int,
    ) -> bool {
        &&& forall|pi: int, k2: int|
            #![trigger progs[pi]@.edges[k2]]
            0 <= pi < progs.len() && 0 <= k2 < progs[pi]@.edges.len() ==> {
                let e = progs[pi]@.edges[k2];
                &&& p.edges.contains(e)
                &&& assigned_loc(p, lv, e.left) == keys[pi]@
                &&& assigned_loc(p, lv, e.right) == keys[pi]@
            }
        &&& forall|k0: int|
            0 <= k0 < upto && assigned_loc(p, lv, (#[trigger] p.edges[k0]).left) == assigned_loc(
                p,
                lv,
                p.edges[k0].right,
            ) ==> exists|pi: int|
                0 <= pi < progs.len() && (#[trigger] keys[pi])@ == assigned_loc(
                    p,
                    lv,
                    p.edges[k0].left,
                ) && progs[pi]@.edges.contains(p.edges[k0])
    }

    /// Appending a within-machine edge to its machine's partition
    /// preserves both phase invariants.
    #[verifier::rlimit(100)]
    #[verifier::spinoff_prover]
    proof fn lemma_parts_insert_edge(
        p: ProgramView,
        lv: Seq<LocationView>,
        keys: Seq<Location>,
        prevprogs: Seq<Program>,
        newprogs: Seq<Program>,
        jx: int,
        k: int,
    )
        requires
            Self::parts_nodes_ok(p, lv, keys, prevprogs),
            Self::parts_edges_inv(p, lv, keys, prevprogs, k),
            0 <= k < p.edges.len(),
            0 <= jx < prevprogs.len(),
            keys[jx]@ == assigned_loc(p, lv, p.edges[k].left),
            keys[jx]@ == assigned_loc(p, lv, p.edges[k].right),
            newprogs.len() == prevprogs.len(),
            newprogs[jx]@.edges == prevprogs[jx]@.edges.push(p.edges[k]),
            newprogs[jx]@.nodes == prevprogs[jx]@.nodes,
            newprogs[jx]@.prog_id == prevprogs[jx]@.prog_id,
            newprogs[jx]@.counter == prevprogs[jx]@.counter,
            forall|pi: int|
                0 <= pi < newprogs.len() && pi != jx ==> #[trigger] newprogs[pi] == prevprogs[pi],
        ensures
            Self::parts_nodes_ok(p, lv, keys, newprogs),
            Self::parts_edges_inv(p, lv, keys, newprogs, k + 1),
    {
        assert forall|pi: int| 0 <= pi < newprogs.len() implies #[trigger] newprogs[pi]@.nodes
            == prevprogs[pi]@.nodes && newprogs[pi]@.prog_id == prevprogs[pi]@.prog_id
            && newprogs[pi]@.counter == prevprogs[pi]@.counter by {}
        assert(prog_node_seqs(newprogs) =~= prog_node_seqs(prevprogs));
        assert forall|pi: int, k2: int|
            #![trigger newprogs[pi]@.edges[k2]]
            0 <= pi < newprogs.len() && 0 <= k2 < newprogs[pi]@.edges.len() implies {
            let e2 = newprogs[pi]@.edges[k2];
            &&& p.edges.contains(e2)
            &&& assigned_loc(p, lv, e2.left) == keys[pi]@
            &&& assigned_loc(p, lv, e2.right) == keys[pi]@
        } by {
            if pi == jx && k2 == prevprogs[jx]@.edges.len() {
                assert(newprogs[pi]@.edges[k2] == p.edges[k]);
                assert(p.edges.contains(p.edges[k]));
            } else {
                assert(newprogs[pi]@.edges[k2] == prevprogs[pi]@.edges[k2]);
            }
        }
        assert forall|k0: int|
            0 <= k0 < k + 1 && assigned_loc(p, lv, (#[trigger] p.edges[k0]).left) == assigned_loc(
                p,
                lv,
                p.edges[k0].right,
            ) implies exists|pi: int|
            0 <= pi < newprogs.len() && (#[trigger] keys[pi])@ == assigned_loc(
                p,
                lv,
                p.edges[k0].left,
            ) && newprogs[pi]@.edges.contains(p.edges[k0]) by {
            if k0 == k {
                assert(newprogs[jx]@.edges[newprogs[jx]@.edges.len() - 1] == p.edges[k]);
                assert(newprogs[jx]@.edges.contains(p.edges[k0]));
            } else {
                let pi = choose|pi: int|
                    0 <= pi < prevprogs.len() && (#[trigger] keys[pi])@ == assigned_loc(
                        p,
                        lv,
                        p.edges[k0].left,
                    ) && prevprogs[pi]@.edges.contains(p.edges[k0]);
                let k2 = choose|k2: int|
                    0 <= k2 < prevprogs[pi]@.edges.len() && prevprogs[pi]@.edges[k2]
                        == p.edges[k0];
                assert(newprogs[pi]@.edges[k2] == p.edges[k0]);
                assert(newprogs[pi]@.edges.contains(p.edges[k0]));
            }
        }
    }

    /// Give every within-machine edge to its machine's partition.
    #[verifier::rlimit(100)]
    #[verifier::spinoff_prover]
    fn distribute_edges(
        &self,
        locs: &Vec<Location>,
        keys: &Vec<Location>,
        progs: &mut Vec<Program>,
    )
        requires
            wf(self@),
            locs@.len() == self@.nodes.len(),
            Self::parts_nodes_ok(self@, locs_view(locs@), keys@, old(progs)@),
            forall|pi: int|
                0 <= pi < old(progs)@.len() ==> (#[trigger] old(progs)@[pi])@.edges.len() == 0,
        ensures
            Self::parts_nodes_ok(self@, locs_view(locs@), keys@, final(progs)@),
            Self::parts_edges_inv(
                self@,
                locs_view(locs@),
                keys@,
                final(progs)@,
                self@.edges.len() as int,
            ),
    {
        let ghost p = self@;
        let ghost lv = locs_view(locs@);
        let mut k: usize = 0;
        #[verifier::loop_isolation(false)]
        while k < self.edges.len()
            invariant
                k <= self.edges@.len(),
                progs@.len() == keys@.len(),
                Self::parts_nodes_ok(p, lv, keys@, progs@),
                Self::parts_edges_inv(p, lv, keys@, progs@, k as int),
            decreases self.edges@.len() - k,
        {
            let e = self.edges[k];
            let li = match self.find_node_index(e.left) {
                Some(x) => x,
                None => {
                    proof {
                        assert(has_node(p, p.edges[k as int].left));
                        assert(false);
                    }
                    k = k + 1;
                    continue ;
                },
            };
            let ri = match self.find_node_index(e.right) {
                Some(x) => x,
                None => {
                    proof {
                        assert(has_node(p, p.edges[k as int].right));
                        assert(false);
                    }
                    k = k + 1;
                    continue ;
                },
            };
            proof {
                lemma_node_of(p, li as int);
                lemma_node_of(p, ri as int);
            }
            if location_matches(&locs[li], &locs[ri]) {
                proof {
                    assert(assigned_loc(p, lv, e.left) == lv[li as int]);
                    assert(assigned_loc(p, lv, e.right) == lv[ri as int]);
                }
                let mut found: Option<usize> = None;
                let mut j: usize = 0;
                #[verifier::loop_isolation(false)]
                while j < keys.len()
                    invariant
                        j <= keys@.len(),
                        found is None,
                        forall|a: int| 0 <= a < j ==> (#[trigger] keys@[a])@ != lv[li as int],
                    decreases keys@.len() - j,
                {
                    if location_matches(&keys[j], &locs[li]) {
                        found = Some(j);
                        break ;
                    }
                    j = j + 1;
                }
                let jj = match found {
                    Some(jj) => jj,
                    None => {
                        proof {
                            assert(Self::core_cover(
                                p,
                                lv,
                                keys@,
                                prog_node_seqs(progs@),
                                li as int,
                            ));
                            let ns = prog_node_seqs(progs@);
                            let (pi, j2): (int, int) = choose|pi: int, j2: int|
                                #![trigger ns[pi][j2]]
                                0 <= pi < ns.len() && 0 <= j2 < ns[pi].len() && ns[pi][j2]
                                    == placed_prog(p, lv).nodes[li as int] && keys@[pi]@ == lv[
                                li as int];
                            assert(false);
                        }
                        k = k + 1;
                        continue ;
                    },
                };
                let ghost prevprogs = progs@;
                let mut tmp = Program::make(0);
                progs.set_and_swap(jj, &mut tmp);
                tmp.edges.push(e);
                progs.set_and_swap(jj, &mut tmp);
                proof {
                    let jx = jj as int;
                    assert(progs@[jx]@.edges =~= prevprogs[jx]@.edges.push(p.edges[k as int]));
                    Self::lemma_parts_insert_edge(p, lv, keys@, prevprogs, progs@, jx, k as int);
                }
            }
            k = k + 1;
        }
    }

    /// Partition the program by the given per-node locations, after
    /// rewriting every cross-machine pipe into a TCP stream.
    #[verifier::rlimit(100)]
    #[verifier::spinoff_prover]
    pub fn split_with_locations(&self, locs: &Vec<Location>) -> (r: Vec<(Location, Program)>)
        requires
            wf(self@),
            locs@.len() == self@.nodes.len(),
        ensures
            split_parts_ok(self@, locs_view(locs@), r@),
    {
        let ghost p = self@;
        let ghost lv = locs_view(locs@);
        let (keys, mut progs) = self.partition_nodes(locs);
        self.distribute_edges(locs, &keys, &mut progs);
        let mut out: Vec<(Location, Program)> = Vec::new();
        let mut j: usize = 0;
        #[verifier::loop_isolation(false)]
        while j < keys.len()
            invariant
                j <= keys@.len(),
                keys@.len() == progs@.len(),
                out@.len() == j,
                forall|a: int|
                    0 <= a < j ==> (#[trigger] out@[a]).0@ == keys@[a]@ && out@[a].1@
                        == progs@[a]@,
            decreases keys@.len() - j,
        {
            out.push((keys[j].duplicate(), progs[j].duplicate()));
            j = j + 1;
        }
        proof {
            let ns = prog_node_seqs(progs@);
            lemma_totals_agree(out@, progs@);
            lemma_total_prog_eq_nseq(progs@);
            assert forall|a: int, b: int|
                0 <= a < b < out@.len() implies (#[trigger] out@[a]).0@ != (
            #[trigger] out@[b]).0@ by {
                assert(out@[a].0@ == keys@[a]@ && out@[b].0@ == keys@[b]@);
            }
            assert forall|pi: int|
                0 <= pi < out@.len() implies (#[trigger] out@[pi]).1@.prog_id == p.prog_id
                && out@[pi].1@.counter == p.counter by {
                assert(out@[pi].1@ == progs@[pi]@);
            }
            assert forall|pi: int, k2: int|
                #![trigger out@[pi].1@.edges[k2]]
                0 <= pi < out@.len() && 0 <= k2 < out@[pi].1@.edges.len() implies {
                let e = out@[pi].1@.edges[k2];
                &&& p.edges.contains(e)
                &&& assigned_loc(p, lv, e.left) == out@[pi].0@
                &&& assigned_loc(p, lv, e.right) == out@[pi].0@
            } by {
                assert(out@[pi].1@ == progs@[pi]@);
                assert(progs@[pi]@.edges[k2] == out@[pi].1@.edges[k2]);
            }
            assert forall|pi: int, j2: int|
                0 <= pi < out@.len() && 0 <= j2 < out@[pi].1@.nodes.len() implies #[trigger] part_node_src(
                p,
                lv,
                out@,
                pi,
                j2,
            ) by {
                assert(ns[pi] == progs@[pi]@.nodes);
                assert(ns[pi][j2] == out@[pi].1@.nodes[j2]);
                let i0 = choose|i0: int|
                    0 <= i0 < p.nodes.len() && ns[pi][j2] == #[trigger] placed_prog(
                        p,
                        lv,
                    ).nodes[i0] && lv[i0] == keys@[pi]@;
                assert(out@[pi].1@.nodes[j2] == placed_prog(p, lv).nodes[i0] && lv[i0]
                    == out@[pi].0@);
            }
            assert forall|i0: int| 0 <= i0 < p.nodes.len() implies #[trigger] parts_cover(
                p,
                lv,
                out@,
                i0,
            ) by {
                assert(Self::core_cover(p, lv, keys@, ns, i0));
                let (pi, j2): (int, int) = choose|pi: int, j2: int|
                    #![trigger ns[pi][j2]]
                    0 <= pi < ns.len() && 0 <= j2 < ns[pi].len() && ns[pi][j2] == placed_prog(
                        p,
                        lv,
                    ).nodes[i0] && keys@[pi]@ == lv[i0];
                assert(ns[pi] == progs@[pi]@.nodes);
                assert(0 <= pi < out@.len() && 0 <= j2 < (out@[pi]).1@.nodes.len()
                    && out@[pi].1@.nodes[j2] == placed_prog(p, lv).nodes[i0] && out@[pi].0@ == lv[
                i0]);
            }
            assert forall|k0: int|
                0 <= k0 < p.edges.len() && assigned_loc(p, lv, (#[trigger] p.edges[k0]).left)
                    == assigned_loc(p, lv, p.edges[k0].right) implies exists|pi: int|
                0 <= pi < out@.len() && (#[trigger] out@[pi]).0@ == assigned_loc(
                    p,
                    lv,
                    p.edges[k0].left,
                ) && out@[pi].1@.edges.contains(p.edges[k0]) by {
                let pi = choose|pi: int|
                    0 <= pi < progs@.len() && (#[trigger] keys@[pi])@ == assigned_loc(
                        p,
                        lv,
                        p.edges[k0].left,
                    ) && progs@[pi]@.edges.contains(p.edges[k0]);
                let k2 = choose|k2: int|
                    0 <= k2 < progs@[pi]@.edges.len() && progs@[pi]@.edges[k2] == p.edges[k0];
                assert(out@[pi].1@.edges[k2] == p.edges[k0]);
                assert(out@[pi].0@ == assigned_loc(p, lv, p.edges[k0].left));
                assert(out@[pi].1@.edges.contains(p.edges[k0]));
            }
            assert(split_parts_ok(p, lv, out@));
        }
        out
    }

    /// There is an assignment of machines to nodes that pins every
    /// file-carrying node to its file's machine and under which the
    /// partitions satisfy the whole split contract.
    pub open spec fn split_ok(p: ProgramView, parts: Seq<(Location, Program)>) -> bool {
        exists|lv: Seq<LocationView>|
            {
                &&& lv.len() == p.nodes.len()
                &&& (forall|i: int|
                    0 <= i < p.nodes.len() && (#[trigger] fixed_loc(p.nodes[i])) is Some ==> lv[i]
                        == fixed_loc(p.nodes[i])->0)
                &&& #[trigger] split_parts_ok(p, lv, parts)
            }
    }

    /// Split the program into one subprogram per machine: choose a
    /// location for every node, rewrite every cross-machine pipe into a
    /// TCP stream whose sides are the endpoints' machines, and group
    /// nodes and within-machine edges by machine.
    #[verifier::rlimit(100)]
    #[verifier::spinoff_prover]
    pub fn split_by_machine(&self) -> (r: Result<Vec<(Location, Program)>, Error>)
        requires
            wf(self@),
        ensures
            match r {
                Ok(parts) => Self::split_ok(self@, parts@),
                Err(e) => e == Error::LocationConflict && exists|i: int|
                    0 <= i < self@.nodes.len() && !write_locs_agree(#[trigger] self@.nodes[i]),
            },
    {
        let locs = match self.assign_locations() {
            Ok(l) => l,
            Err(e) => {
                return Err(e);
            },
        };
        let parts = self.split_with_locations(&locs);
        proof {
            let lvw = locs_view(locs@);
            assert(lvw.len() == self@.nodes.len());
            assert(split_parts_ok(self@, lvw, parts@));
            assert(Self::split_ok(self@, parts@)) by {
                assert({
                    &&& lvw.len() == self@.nodes.len()
                    &&& (forall|i: int|
                        0 <= i < self@.nodes.len() && (#[trigger] fixed_loc(
                            self@.nodes[i],
                        )) is Some ==> lvw[i] == fixed_loc(self@.nodes[i])->0)
                    &&& split_parts_ok(self@, lvw, parts@)
                });
            }
        }
        Ok(parts)
    }
}

/// Partition totals agree between the paired form and the program list.
pub proof fn lemma_totals_agree(s1: Seq<(Location, Program)>, s2: Seq<Program>)
    requires
        s1.len() == s2.len(),
        forall|a: int| 0 <= a < s1.len() ==> (#[trigger] s1[a]).1@ == s2[a]@,
    ensures
        total_nodes(s1) == total_prog_nodes(s2),
    decreases s1.len(),
{
    if s1.len() > 0 {
        assert forall|a: int| 0 <= a < s1.drop_first().len() implies (
        #[trigger] s1.drop_first()[a]).1@ == s2.drop_first()[a]@ by {
            assert(s1.drop_first()[a] == s1[a + 1]);
            assert(s2.drop_first()[a] == s2[a + 1]);
        }
        lemma_totals_agree(s1.drop_first(), s2.drop_first());
    }
}


} // verus!
