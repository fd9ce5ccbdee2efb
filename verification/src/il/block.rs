use vstd::prelude::*;
use crate::errors::Error;
use crate::graph;
use crate::il::node::{Node, NodeView, digits, node_text, push_digits};
use crate::instruction::Insn;

verus! {

/// The views of a sequence of nodes.
pub open spec fn views(nodes: Seq<Node>) -> Seq<NodeView> {
    nodes.map_values(|n: Node| n@)
}

/// Replacing one node and then viewing is viewing and then replacing one view.
pub proof fn lemma_views_update(nodes: Seq<Node>, i: int)
    requires
        0 <= i < nodes.len(),
    ensures
        forall|x: Node| #[trigger] views(nodes.update(i, x)) == views(nodes).update(i, x@),
{
    assert forall|x: Node| #[trigger] views(nodes.update(i, x)) == views(nodes).update(i, x@) by {
        assert(views(nodes.update(i, x)) =~= views(nodes).update(i, x@));
    }
}

/// The views of a sequence of borrowed nodes.
pub open spec fn ref_views(nodes: Seq<&Node>) -> Seq<NodeView> {
    nodes.map_values(|n: &Node| n@)
}

/// Whether a node view is a phi node.
pub open spec fn is_phi_view(n: NodeView) -> bool {
    n.is_phi()
}

/// Whether a node view is an instruction node.
pub open spec fn is_insn_view(n: NodeView) -> bool {
    !n.is_phi()
}

/// The abstract value of a block.
pub struct BlockView {
    /// The block's index in the graph.
    pub index: usize,
    /// Its nodes, in order.
    pub nodes: Seq<NodeView>,
}

/// The texts of nodes, one line each.
pub open spec fn node_lines(nodes: Seq<NodeView>) -> Seq<char>
    decreases nodes.len(),
{
    if nodes.len() == 0 {
        Seq::empty()
    } else {
        node_lines(nodes.drop_last()) + node_text(nodes.last()) + seq!['\n']
    }
}

/// The text of a block: a header line with its index in upper-case hexadecimal,
/// then a line for each phi node, then a line for each node.
pub open spec fn block_text(v: BlockView) -> Seq<char> {
    seq!['[', ' ', 'B', 'l', 'o', 'c', 'k', ':', ' ', '0', 'x'] + digits(v.index as nat, 16) + seq![' ', ']', '\n']
        + node_lines(v.nodes.filter(|n: NodeView| is_phi_view(n))) + node_lines(v.nodes)
}

/// A basic block: a run of instructions that executes from its first node to its last.
#[derive(Clone, Debug)]
pub struct Block {
    index: usize,
    pub nodes: Vec<Node>,
}

/// Appends a line with the text of each node.
fn append_lines(s: &mut String, nodes: &Vec<&Node>)
    ensures
        final(s)@ == old(s)@ + node_lines(ref_views(nodes@)),
{
    let mut i: usize = 0;
    while i < nodes.len()
        invariant
            i <= nodes@.len(),
            s@ == old(s)@ + node_lines(ref_views(nodes@).take(i as int)),
        decreases nodes@.len() - i,
    {
        let line = nodes[i].text();
        s.append(line.as_str());
        s.append("\n");
        proof {
            reveal_strlit("\n");
            let vs = ref_views(nodes@);
            assert(vs.take(i + 1).drop_last() =~= vs.take(i as int));
            assert(vs.take(i + 1).last() == nodes@[i as int]@);
            assert(s@ =~= old(s)@ + node_lines(vs.take(i + 1)));
        }
        i = i + 1;
    }
    assert(ref_views(nodes@).take(i as int) =~= ref_views(nodes@));
}

impl View for Block {
    type V = BlockView;

    closed spec fn view(&self) -> BlockView {
        BlockView { index: self.index, nodes: views(self.nodes@) }
    }
}

impl Block {
    /// An empty block with index `index`.
    pub fn new(index: usize) -> (r: Block)
        ensures
            r@ == (BlockView { index, nodes: Seq::empty() }),
    {
        proof {
            assert(views(Seq::<Node>::empty()) =~= Seq::<NodeView>::empty());
        }
        Block { index, nodes: Vec::new() }
    }

    /// The phi nodes, in order.
    pub fn phi_nodes(&self) -> (r: Vec<&Node>)
        ensures
            ref_views(r@) == self@.nodes.filter(|n: NodeView| is_phi_view(n)),
    {
        self.select(true)
    }

    /// The instruction nodes, in order.
    pub fn insn_nodes(&self) -> (r: Vec<&Node>)
        ensures
            ref_views(r@) == self@.nodes.filter(|n: NodeView| is_insn_view(n)),
    {
        self.select(false)
    }

    fn select(&self, phi: bool) -> (r: Vec<&Node>)
        ensures
            phi ==> ref_views(r@) == self@.nodes.filter(|n: NodeView| is_phi_view(n)),
            !phi ==> ref_views(r@) == self@.nodes.filter(|n: NodeView| is_insn_view(n)),
    {
        let ghost pred = if phi {
            |n: NodeView| is_phi_view(n)
        } else {
            |n: NodeView| is_insn_view(n)
        };
        let mut r: Vec<&Node> = Vec::new();
        let mut i: usize = 0;
        while i < self.nodes.len()
            invariant
                i <= self.nodes@.len(),
                ref_views(r@) == self@.nodes.take(i as int).filter(pred),
                self@.nodes == views(self.nodes@),
                pred == (if phi {
                    |n: NodeView| is_phi_view(n)
                } else {
                    |n: NodeView| is_insn_view(n)
                }),
            decreases self.nodes@.len() - i,
        {
            let n = &self.nodes[i];
            proof {
                reveal_with_fuel(Seq::<_>::filter, 1);
                assert(self@.nodes.take(i + 1).drop_last() =~= self@.nodes.take(i as int));
            }
            if n.is_phi() == phi {
                r.push(n);
                assert(ref_views(r@) =~= self@.nodes.take(i + 1).filter(pred));
            } else {
                assert(ref_views(r@) =~= self@.nodes.take(i + 1).filter(pred));
            }
            i = i + 1;
        }
        assert(self@.nodes.take(i as int) =~= self@.nodes);
        r
    }

    /// The text of the block (see `block_text`).
    pub fn text(&self) -> (r: String)
        ensures
            r@ == block_text(self@),
    {
        let mut s = String::from_str("[ Block: 0x");
        push_digits(&mut s, self.index as u64, 16);
        s.append(" ]\n");
        proof {
            reveal_strlit("[ Block: 0x");
            reveal_strlit(" ]\n");
        }
        let phis = self.phi_nodes();
        append_lines(&mut s, &phis);
        let mut all: Vec<&Node> = Vec::new();
        let mut i: usize = 0;
        while i < self.nodes.len()
            invariant
                i <= self.nodes@.len(),
                all@.len() == i,
                ref_views(all@) == views(self.nodes@).take(i as int),
            decreases self.nodes@.len() - i,
        {
            let ghost prev = all@;
            let n = &self.nodes[i];
            all.push(n);
            proof {
                assert(all@ == prev.push(n));
                assert forall|j: int| 0 <= j < i + 1 implies #[trigger] ref_views(all@)[j] == views(self.nodes@).take(
                    i + 1,
                )[j] by {
                    assert(ref_views(all@)[j] == all@[j]@);
                    assert(views(self.nodes@)[j] == self.nodes@[j]@);
                    if j < i {
                        assert(all@[j] == prev[j]);
                        assert(ref_views(prev)[j] == prev[j]@);
                        assert(ref_views(prev)[j] == views(self.nodes@).take(i as int)[j]);
                    } else {
                        assert(*n == self.nodes@[i as int]);
                    }
                }
                assert(ref_views(all@) =~= views(self.nodes@).take(i + 1));
            }
            i = i + 1;
        }
        assert(views(self.nodes@).take(i as int) =~= self@.nodes);
        let ghost before = s@;
        append_lines(&mut s, &all);
        proof {
            assert(s@ =~= block_text(self@));
        }
        s
    }

    /// The nodes, in order.
    pub fn nodes(&self) -> (r: &Vec<Node>)
        ensures
            views(r@) == self@.nodes,
    {
        &self.nodes
    }

    /// The nodes, to change.
    pub fn nodes_mut(&mut self) -> (r: &mut Vec<Node>)
        ensures
            views(r@) == old(self)@.nodes,
            final(self)@ == (BlockView { nodes: views(final(r)@), ..old(self)@ }),
    {
        &mut self.nodes
    }

    /// The node at position `idx`.
    pub fn node(&self, idx: usize) -> (r: Result<&Node, Error>)
        ensures
            idx < self@.nodes.len() ==> (r matches Ok(n) && n@ == self@.nodes[idx as int]),
            idx >= self@.nodes.len() ==> r == Err::<&Node, Error>(Error::InvalidInsnIndex(idx)),
    {
        if idx < self.nodes.len() {
            Ok(&self.nodes[idx])
        } else {
            Err(Error::InvalidInsnIndex(idx))
        }
    }

    /// The node at position `idx`, to change.
    pub fn node_mut(&mut self, idx: usize) -> (r: Result<&mut Node, Error>)
        ensures
            idx < old(self)@.nodes.len() ==> (r matches Ok(n) && n@ == old(self)@.nodes[idx as int]
                && final(self)@ == (BlockView { nodes: old(self)@.nodes.update(idx as int, final(n)@), ..old(self)@ })),
            idx >= old(self)@.nodes.len() ==> r == Err::<&mut Node, Error>(Error::InvalidInsnIndex(idx)) && final(self)@ == old(self)@,
    {
        if idx < self.nodes.len() {
            proof {
                lemma_views_update(self.nodes@, idx as int);
            }
            Ok(&mut self.nodes[idx])
        } else {
            Err(Error::InvalidInsnIndex(idx))
        }
    }
}

impl Block {
    /// The instruction node at position `idx`.
    pub fn insn_node(&self, idx: usize) -> (r: Result<&Node, Error>)
        ensures
            idx < self@.nodes.len() && !self@.nodes[idx as int].is_phi() ==> (r matches Ok(n)
                && n@ == self@.nodes[idx as int]),
            idx < self@.nodes.len() && self@.nodes[idx as int].is_phi() ==> r == Err::<&Node, Error>(
                Error::WrongNodeType,
            ),
            idx >= self@.nodes.len() ==> r == Err::<&Node, Error>(Error::InvalidInsnIndex(idx)),
    {
        let node = self.node(idx)?;
        if node.is_phi() {
            Err(Error::WrongNodeType)
        } else {
            Ok(node)
        }
    }

    /// The instruction node at position `idx`, to change.
    pub fn insn_node_mut(&mut self, idx: usize) -> (r: Result<&mut Node, Error>)
        ensures
            idx < old(self)@.nodes.len() && !old(self)@.nodes[idx as int].is_phi() ==> (r matches Ok(n)
                && n@ == old(self)@.nodes[idx as int] && final(self)@ == (BlockView {
                nodes: old(self)@.nodes.update(idx as int, final(n)@),
                ..old(self)@
            })),
            idx < old(self)@.nodes.len() && old(self)@.nodes[idx as int].is_phi() ==> r
                == Err::<&mut Node, Error>(Error::WrongNodeType) && final(self)@ == old(self)@,
            idx >= old(self)@.nodes.len() ==> r == Err::<&mut Node, Error>(Error::InvalidInsnIndex(idx))
                && final(self)@ == old(self)@,
    {
        if idx < self.nodes.len() && self.nodes[idx].is_phi() {
            Err(Error::WrongNodeType)
        } else {
            self.node_mut(idx)
        }
    }

    /// Appends an instruction node with global index `index`; returns `index`.
    pub fn add_insn(&mut self, index: usize, insn: Insn) -> (r: usize)
        ensures
            r == index,
            final(self)@ == (BlockView {
                nodes: old(self)@.nodes.push(
                    NodeView { block: old(self)@.index, index, insn: Some(insn@), srcs: Seq::empty() },
                ),
                ..old(self)@
            }),
    {
        let insn_node = Node::new(self.index, index, insn);
        self.nodes.push(insn_node);
        proof {
            assert(views(self.nodes@) =~= views(old(self).nodes@).push(insn_node@));
        }
        index
    }

    /// Appends a phi node with global index `index`; returns `index`.
    pub fn add_phi(&mut self, index: usize) -> (r: usize)
        ensures
            r == index,
            final(self)@ == (BlockView {
                nodes: old(self)@.nodes.push(
                    NodeView { block: old(self)@.index, index, insn: None, srcs: Seq::empty() },
                ),
                ..old(self)@
            }),
    {
        let phi_node = Node::new_phi(self.index, index);
        self.nodes.push(phi_node);
        proof {
            assert(views(self.nodes@) =~= views(old(self).nodes@).push(phi_node@));
        }
        index
    }

    /// Appends a copy of `node` to this block, moving its sources to the copy.
    pub fn add_node(&mut self, node: &mut Node)
        ensures
            final(self)@ == (BlockView {
                nodes: old(self)@.nodes.push(NodeView { block: old(self)@.index, ..old(node)@ }),
                ..old(self)@
            }),
            final(node)@ == (NodeView { srcs: Seq::empty(), ..old(node)@ }),
    {
        if node.is_phi() {
            self.add_phi(node.index());
        } else {
            let insn = match node.insn() {
                Some(i) => i.clone(),
                None => {
                    proof {
                        assert(false);
                    }
                    return;
                }
            };
            self.add_insn(node.index(), insn);
        }
        assert(self.nodes@.len() == self@.nodes.len());
        let last = self.nodes.len() - 1;
        match self.node_mut(last) {
            Ok(n) => {
                n.set_srcs_from(node);
            }
            Err(_) => {}
        }
        proof {
            assert(self@.nodes =~= old(self)@.nodes.push(NodeView { block: old(self)@.index, ..old(node)@ }));
        }
    }
}

impl Default for Block {
    /// The empty block with index 0.
    fn default() -> (r: Block)
        ensures
            r@ == (BlockView { index: 0, nodes: Seq::empty() }),
    {
        Block::new(0)
    }
}

impl graph::Vertex for Block {
    open spec fn spec_index(&self) -> usize {
        self@.index
    }

    fn index(&self) -> (r: usize) {
        self.index
    }
}

/// A control-flow edge from block `head` to block `tail`.
#[derive(Clone, Debug)]
pub struct Edge {
    head: usize,
    tail: usize,
}

impl Edge {
    /// The edge from block `head` to block `tail`.
    pub fn new(head: usize, tail: usize) -> (r: Edge)
        ensures
            graph::Edge::spec_head(&r) == head,
            graph::Edge::spec_tail(&r) == tail,
    {
        Edge { head, tail }
    }
}

impl Default for Edge {
    /// The edge from block 0 to itself.
    fn default() -> (r: Edge)
        ensures
            graph::Edge::spec_head(&r) == 0,
            graph::Edge::spec_tail(&r) == 0,
    {
        Edge::new(0, 0)
    }
}

impl graph::Edge for Edge {
    closed spec fn spec_head(&self) -> usize {
        self.head
    }

    closed spec fn spec_tail(&self) -> usize {
        self.tail
    }

    fn head(&self) -> (r: usize) {
        self.head
    }

    fn tail(&self) -> (r: usize) {
        self.tail
    }
}

} // verus!
