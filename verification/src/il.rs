pub mod block;
pub mod model;
pub mod node;

use vstd::prelude::*;
use std::collections::BTreeMap;
use std::collections::VecDeque;
use crate::graph;
use crate::graph::Graph;
use crate::graph::Edge as GraphEdge;
use crate::graph::Vertex;
use crate::il::block::{Block, BlockView, Edge, views};
use crate::il::node::{Node, NodeView};
use crate::il::model::{CfgView, MsgView};
use crate::instruction::{Insn, InsnView, inst_view};
use crate::errors::Error;
use crate::streamer::proto::UtMsg;

verus! {

/// The views of a sequence of blocks.
pub open spec fn block_views(bs: Seq<Block>) -> Seq<BlockView> {
    bs.map_values(|b: Block| b@)
}

/// The (head, tail) pairs of a sequence of edges.
pub open spec fn edge_pairs(es: Seq<Edge>) -> Seq<(usize, usize)> {
    es.map_values(|e: Edge| (graph::Edge::spec_head(&e), graph::Edge::spec_tail(&e)))
}

/// Replacing one block and then viewing is viewing and then replacing one view.
pub proof fn lemma_block_views_update(bs: Seq<Block>, i: int, x: Block)
    requires
        0 <= i < bs.len(),
    ensures
        block_views(bs.update(i, x)) == block_views(bs).update(i, x@),
{
    assert(block_views(bs.update(i, x)) =~= block_views(bs).update(i, x@));
}

/// Changing one node of one block through the graph is changing that node in the
/// views, and keeps the graph well formed where the block keeps its index.
pub proof fn lemma_node_mut_view(vs: Seq<Block>, b: int, i: int)
    requires
        0 <= b < vs.len(),
        0 <= i < vs[b]@.nodes.len(),
    ensures
        forall|x: Block| #[trigger] block_views(vs.update(b, x)) == block_views(vs).update(b, x@),
{
    assert forall|x: Block| #[trigger] block_views(vs.update(b, x)) == block_views(vs).update(b, x@) by {
        lemma_block_views_update(vs, b, x);
    }
}

/// Whether `x` occurs in `v`.
fn contains_index(v: &Vec<usize>, x: usize) -> (r: bool)
    ensures
        r == v@.contains(x),
{
    let mut i: usize = 0;
    while i < v.len()
        invariant
            i <= v@.len(),
            forall|j: int| 0 <= j < i ==> v@[j] != x,
        decreases v@.len() - i,
    {
        if v[i] == x {
            assert(v@[i as int] == x);
            return true;
        }
        i = i + 1;
    }
    false
}

/// The state of the instruction being parsed: the last instruction, the current
/// block and the last writer of each register.
#[derive(Clone, Debug)]
pub struct Table {
    last_insn: Option<usize>,
    current_block: Option<usize>,
    reg_table: BTreeMap<usize, usize>,
}

/// Statistics of the trace.
#[derive(Clone, Debug)]
pub struct Statistic {}

/// Timing information of the trace.
#[derive(Clone, Debug)]
pub struct Information {
    block_count: Vec<u64>,
    /// The last commit cycle whose latencies were accounted.
    pub last_commit_timestamp: u64,
    /// The cycle of the last update.
    pub updated_timestamp: u64,
    /// The nodes committed in the cycle being accounted, with that cycle.
    pub insn_latency_buffer: VecDeque<(usize, u64)>,
}

/// A control-flow graph of basic blocks over a data-dependence graph of nodes,
/// built from a trace one committed instruction at a time.
#[derive(Clone, Debug)]
pub struct CFG {
    graph: Graph<Block, Edge>,
    next_block_index: usize,
    next_node_index: usize,
    pc_insn: BTreeMap<u64, usize>,
    insn_block: Vec<(usize, usize)>,
    stack: Table,
    information: Information,
    statistic: Statistic,
}

impl View for CFG {
    type V = CfgView;

    closed spec fn view(&self) -> CfgView {
        CfgView {
            blocks: block_views(self.graph.spec_vertices()),
            edges: edge_pairs(self.graph.spec_edges()),
            pc_insn: self.pc_insn@,
            insn_block: self.insn_block@,
            last_insn: self.stack.last_insn,
            current_block: self.stack.current_block,
            reg_table: self.stack.reg_table@,
            latency_buffer: self.information.insn_latency_buffer@,
            last_commit_timestamp: self.information.last_commit_timestamp,
        }
    }
}

impl CFG {
    /// The counters agree with the graph and the node table, and the graph is well formed.
    closed spec fn inv(&self) -> bool {
        &&& self.graph.wf()
        &&& self.next_block_index == self.graph.spec_vertices().len()
        &&& self.next_node_index == self.insn_block@.len()
    }

    /// The invariant of the construction.
    pub closed spec fn wf(&self) -> bool {
        &&& self.inv()
        &&& self@.wf()
    }

    /// The abstract value of a well-formed graph satisfies the invariant of the
    /// construction, so that the laws of the model apply to it.
    pub proof fn lemma_wf_view(&self)
        requires
            self.wf(),
        ensures
            self@.wf(),
    {
    }

    fn phi_block(&self) -> (r: usize)
        ensures
            r == 0,
    {
        0
    }

    fn next_node_index(&mut self) -> (r: usize)
        requires
            old(self).next_node_index < usize::MAX,
        ensures
            r == old(self).next_node_index,
            *final(self) == (CFG { next_node_index: (old(self).next_node_index + 1) as usize, ..*old(self) }),
    {
        let index = self.next_node_index;
        self.next_node_index += 1;
        index
    }

    fn block(&self, index: usize) -> (r: &Block)
        requires
            index < self.graph.spec_vertices().len(),
        ensures
            *r == self.graph.spec_vertices()[index as int],
    {
        self.graph.vertex(index).unwrap()
    }

    fn block_mut(&mut self, index: usize) -> (r: &mut Block)
        requires
            index < old(self).graph.spec_vertices().len(),
        ensures
            *r == old(self).graph.spec_vertices()[index as int],
            final(self).graph.spec_vertices() == old(self).graph.spec_vertices().update(index as int, *final(r)),
            final(self).graph.spec_edges() == old(self).graph.spec_edges(),
            final(self).next_block_index == old(self).next_block_index,
            final(self).next_node_index == old(self).next_node_index,
            final(self).pc_insn == old(self).pc_insn,
            final(self).insn_block == old(self).insn_block,
            final(self).stack == old(self).stack,
            final(self).information == old(self).information,
    {
        self.graph.vertex_mut(index).unwrap()
    }

    #[verifier::spinoff_prover]
    /// Adds an empty block, entered from block `last` where there is one; gives its index.
    fn new_block(&mut self, last_block_index: Option<usize>) -> (r: usize)
        requires
            old(self).inv(),
            last_block_index matches Some(l) ==> l < old(self)@.blocks.len(),
            old(self)@.blocks.len() < usize::MAX,
        ensures
            final(self).inv(),
            final(self)@ == old(self)@.add_block(last_block_index),
            r == old(self)@.blocks.len(),
    {
        let index = self.next_block_index;
        self.next_block_index += 1;
        let block = Block::new(index);
        let ghost old_vertices = self.graph.spec_vertices();
        let ghost old_edges = self.graph.spec_edges();
        let res = self.graph.insert_vertex(block);
        proof {
            assert(graph::Vertex::spec_index(&block) == index);
            assert(block_views(self.graph.spec_vertices()) =~= block_views(old_vertices).push(block@));
        }
        if let Some(last_block_index) = last_block_index {
            let e = Edge::new(last_block_index, index);
            proof {
                if self.graph.contains_edge(last_block_index, index) {
                    let j = choose|j: int|
                        0 <= j < self.graph.spec_edges().len() && #[trigger] self.graph.spec_edges()[j].spec_head()
                            == last_block_index && self.graph.spec_edges()[j].spec_tail() == index;
                    assert(self.graph.spec_edges()[j].spec_tail() < old_vertices.len());
                }
            }
            let res2 = self.graph.insert_edge(e);
            proof {
                assert(edge_pairs(self.graph.spec_edges()) =~= edge_pairs(old_edges).push((last_block_index, index)));
            }
        }
        index
    }

    #[verifier::spinoff_prover]
    /// Adds an instruction node for `insn` at the end of block `block_index`; gives
    /// its global index.
    fn new_insn_node(&mut self, insn: Insn, block_index: usize) -> (r: usize)
        requires
            old(self).inv(),
            old(self)@.wf(),
            block_index < old(self)@.blocks.len(),
            old(self)@.num_nodes() + 1 < usize::MAX,
        ensures
            final(self).inv(),
            final(self)@ == old(self)@.add_insn_node(insn@, block_index),
            r == old(self)@.num_nodes(),
    {
        let ghost s = self@;
        proof {
            assert(s.blocks[block_index as int].index == block_index);
        }
        let node_index = self.next_node_index();
        let pc = insn.pc();
        let ghost ins = insn@;
        let block = self.block_mut(block_index);
        let ghost b0 = *block;
        block.add_insn(node_index, insn);
        assert(block@.nodes.len() == b0@.nodes.len() + 1);
        let idx_in_block = block.nodes().len() - 1;
        assert(idx_in_block == b0@.nodes.len());
        self.insn_block.push((block_index, idx_in_block));
        self.pc_insn.insert(pc, node_index);
        proof {
            lemma_block_views_update(old(self).graph.spec_vertices(), block_index as int, self.graph.spec_vertices()[block_index as int]);
            assert(self@.blocks =~= s.add_insn_node(ins, block_index).blocks);
            assert(self@ =~= s.add_insn_node(ins, block_index));
        }
        node_index
    }

    #[verifier::spinoff_prover]
    fn new_phi_node(&mut self) -> (r: usize)
        requires
            old(self).inv(),
            old(self)@.wf(),
            old(self)@.num_nodes() + 1 < usize::MAX,
        ensures
            final(self).inv(),
            final(self)@ == old(self)@.add_phi_node(Seq::empty()),
            r == old(self)@.num_nodes(),
    {
        let ghost s = self@;
        proof {
            assert(s.blocks[0].index == 0);
        }
        let node_index = self.next_node_index();
        let phi = self.phi_block();
        let block = self.block_mut(phi);
        let ghost b0 = *block;
        block.add_phi(node_index);
        assert(block@.nodes.len() == b0@.nodes.len() + 1);
        let idx_in_block = block.nodes().len() - 1;
        assert(idx_in_block == b0@.nodes.len());
        self.insn_block.push((phi, idx_in_block));
        proof {
            lemma_block_views_update(old(self).graph.spec_vertices(), 0, self.graph.spec_vertices()[0]);
            assert(self@.blocks =~= s.add_phi_node(Seq::empty()).blocks);
            assert(self@ =~= s.add_phi_node(Seq::empty()));
        }
        node_index
    }

    fn last_insn(&self) -> (r: Option<usize>)
        ensures
            r == self@.last_insn,
    {
        self.stack.last_insn
    }

    fn current_block_index(&self) -> (r: Option<usize>)
        ensures
            r == self@.current_block,
    {
        self.stack.current_block
    }

    fn block_index_of_insn(&self, index: usize) -> (r: usize)
        requires
            index < self@.num_nodes(),
        ensures
            r == self@.block_of(index),
    {
        let (block_index, _) = self.insn_block[index];
        block_index
    }

    fn node_is_leading(&self, index: usize) -> (r: bool)
        requires
            index < self@.num_nodes(),
        ensures
            r == self@.is_leading(index),
    {
        let (_, insn_idx) = self.insn_block[index];
        insn_idx == 0
    }

    fn node(&self, index: usize) -> (r: &Node)
        requires
            self.inv(),
            self@.wf(),
            index < self@.num_nodes(),
        ensures
            r@ == self@.node(index),
    {
        let (block_index, insn_index) = self.insn_block[index];
        let block = self.block(block_index);
        block.node(insn_index).unwrap()
    }

    fn insn_node(&self, index: usize) -> (r: &Node)
        requires
            self.inv(),
            self@.wf(),
            index < self@.num_nodes(),
            self@.block_of(index) != 0,
        ensures
            r@ == self@.node(index),
            !r@.is_phi(),
    {
        let (block_index, insn_index) = self.insn_block[index];
        proof {
            assert(self@.blocks[block_index as int].nodes[insn_index as int].index == index);
        }
        let block = self.block(block_index);
        block.insn_node(insn_index).unwrap()
    }

    fn node_mut(&mut self, index: usize) -> (r: &mut Node)
        requires
            old(self).inv(),
            old(self)@.wf(),
            index < old(self)@.num_nodes(),
        ensures
            r@ == old(self)@.node(index),
            final(self).inv(),
            final(self)@ == old(self)@.with_nodes(
                old(self)@.block_of(index),
                old(self)@.blocks[old(self)@.block_of(index) as int].nodes.update(
                    old(self)@.insn_block[index as int].1 as int,
                    final(r)@,
                ),
            ),
    {
        let (block_index, insn_index) = self.insn_block[index];
        let ghost s = self@;
        let ghost vs = self.graph.spec_vertices();
        proof {
            assert(s.blocks[block_index as int].index == block_index);
            lemma_node_mut_view(vs, block_index as int, insn_index as int);
        }
        let block = self.block_mut(block_index);
        block.node_mut(insn_index).unwrap()
    }

    fn insn_node_mut(&mut self, index: usize) -> (r: &mut Node)
        requires
            old(self).inv(),
            old(self)@.wf(),
            index < old(self)@.num_nodes(),
            old(self)@.block_of(index) != 0,
        ensures
            r@ == old(self)@.node(index),
            final(self).inv(),
            final(self)@ == old(self)@.with_nodes(
                old(self)@.block_of(index),
                old(self)@.blocks[old(self)@.block_of(index) as int].nodes.update(
                    old(self)@.insn_block[index as int].1 as int,
                    final(r)@,
                ),
            ),
    {
        let (block_index, insn_index) = self.insn_block[index];
        let ghost s = self@;
        let ghost vs = self.graph.spec_vertices();
        proof {
            assert(s.blocks[block_index as int].index == block_index);
            assert(s.blocks[block_index as int].nodes[insn_index as int].index == index);
            lemma_node_mut_view(vs, block_index as int, insn_index as int);
        }
        let block = self.block_mut(block_index);
        block.insn_node_mut(insn_index).unwrap()
    }

    fn last_insn_is_not_control(&self) -> (r: bool)
        requires
            self.inv(),
            self@.wf(),
        ensures
            r == self@.last_is_not_control(),
    {
        match self.last_insn() {
            Some(last_insn) => {
                let last_insn_node = self.insn_node(last_insn);
                !last_insn_node.insn().unwrap().is_control()
            },
            None => false,
        }
    }

    fn last_insn_is_control(&self) -> (r: bool)
        requires
            self.inv(),
            self@.wf(),
        ensures
            r == self@.last_is_control(),
    {
        match self.last_insn() {
            Some(last_insn) => {
                let last_insn_node = self.insn_node(last_insn);
                last_insn_node.insn().unwrap().is_control()
            },
            None => false,
        }
    }

    #[verifier::spinoff_prover]
    fn split_block(&mut self, block_index: usize, insn_index: usize)
        requires
            old(self).wf(),
            insn_index < old(self)@.num_nodes(),
            old(self)@.block_of(insn_index) == block_index,
            block_index != 0,
            old(self)@.blocks.len() + 1 < usize::MAX,
        ensures
            final(self).inv(),
            final(self)@ == old(self)@.split(block_index, old(self)@.insn_block[insn_index as int].1),
    {
        let ghost s = self@;
        let insn_index_in_block = self.insn_block[insn_index].1;
        proof {
            assert(s.blocks[block_index as int].nodes[insn_index_in_block as int].index == insn_index);
            assert(s.blocks[block_index as int].index == block_index);
        }
        let new_block = self.new_block(Some(block_index));
        proof {
            model::lemma_add_block_wf(s, Some(block_index));
        }
        let ghost s1 = self@;
        let ghost vs1 = self.graph.spec_vertices();
        let block = self.block_mut(block_index);
        let moved = block.nodes_mut().split_off(insn_index_in_block);
        proof {
            assert(views(moved@) =~= s.blocks[block_index as int].nodes.skip(insn_index_in_block as int));
            lemma_block_views_update(vs1, block_index as int, self.graph.spec_vertices()[block_index as int]);
            assert(block_views(self.graph.spec_vertices())[block_index as int].nodes
                =~= s.blocks[block_index as int].nodes.take(insn_index_in_block as int));
        }
        let ghost s2 = self@;
        assert(s2.blocks[new_block as int] == s1.blocks[new_block as int]);
        assert(s2.blocks[new_block as int].index == new_block);
        let ghost nodes = s.blocks[block_index as int].nodes;
        let ghost k = insn_index_in_block;
        assert(s.blocks[block_index as int].index == block_index);
        assert(views(moved@).len() == moved@.len());
        let mut j: usize = 0;
        while j < moved.len()
            invariant
                s.wf(),
                block_index < s.blocks.len(),
                s.blocks[block_index as int].nodes == nodes,
                k <= nodes.len(),
                nodes.len() <= usize::MAX,
                moved@.len() == nodes.len() - k,
                views(moved@) == nodes.skip(k as int),
                new_block == s.blocks.len(),
                s2.blocks[new_block as int].index == new_block,
                s2.blocks.len() == s.blocks.len() + 1,
                0 <= j <= moved@.len(),
                self.inv(),
                self@.blocks == s2.blocks,
                self@.edges == s2.edges,
                self@.pc_insn == s2.pc_insn,
                self@.last_insn == s2.last_insn,
                self@.current_block == s2.current_block,
                self@.reg_table == s2.reg_table,
                self@.latency_buffer == s2.latency_buffer,
                self@.last_commit_timestamp == s2.last_commit_timestamp,
                self.insn_block@.len() == s.insn_block.len(),
                forall|n: int| 0 <= n < s.insn_block.len() ==> #[trigger] self.insn_block@[n] == (
                    if s.insn_block[n].0 == block_index && k <= s.insn_block[n].1 < k + j {
                        (new_block, (s.insn_block[n].1 - k) as usize)
                    } else {
                        s.insn_block[n]
                    }),
            decreases moved@.len() - j,
        {
            let node_index = moved[j].index();
            proof {
                assert(views(moved@).len() == moved@.len());
                assert(views(moved@)[j as int] == moved@[j as int]@);
                assert(nodes.skip(k as int)[j as int] == nodes[k + j]);
                assert(moved@[j as int]@ == nodes[k + j]);
                assert(s.blocks[block_index as int].nodes[k + j] == nodes[k + j]);
                assert(s.insn_block[node_index as int] == (block_index, (k + j) as usize));
            }
            let ghost ib = self.insn_block@;
            self.insn_block.set(node_index, (new_block, j));
            proof {
                assert forall|n: int| 0 <= n < s.insn_block.len() implies #[trigger] self.insn_block@[n] == (
                    if s.insn_block[n].0 == block_index && k <= s.insn_block[n].1 < k + j + 1 {
                        (new_block, (s.insn_block[n].1 - k) as usize)
                    } else {
                        s.insn_block[n]
                    }) by {
                    if n == node_index {
                        assert(self.insn_block@[n] == (new_block, j));
                        assert(s.insn_block[n] == (block_index, (k + j) as usize));
                    } else {
                        assert(self.insn_block@[n] == ib[n]);
                        assert(ib[n] == (if s.insn_block[n].0 == block_index && k <= s.insn_block[n].1 < k + j {
                            (new_block, (s.insn_block[n].1 - k) as usize)
                        } else {
                            s.insn_block[n]
                        }));
                        if s.insn_block[n].0 == block_index && s.insn_block[n].1 == k + j {
                            assert(s.blocks[block_index as int].nodes[k + j].index == n);
                            assert(false);
                        }
                    }
                }
            }
            j = j + 1;
        }
        let ghost vs2 = self.graph.spec_vertices();
        let nb = self.block_mut(new_block);
        *nb.nodes_mut() = moved;
        proof {
            lemma_block_views_update(vs2, new_block as int, self.graph.spec_vertices()[new_block as int]);
            let t = s.split(block_index, k);
            assert(self@.blocks[new_block as int].nodes =~= nodes.skip(k as int));
            assert(self@.blocks[new_block as int].index == new_block);
            assert(self@.blocks[block_index as int].nodes =~= nodes.take(k as int));
            assert(self@.blocks[block_index as int].index == block_index);
            assert forall|i: int| 0 <= i < self@.blocks.len() && i != new_block && i != block_index
                implies #[trigger] self@.blocks[i] == t.blocks[i] by {
                assert(self@.blocks[i] == s2.blocks[i]);
            }
            assert(self@.insn_block =~= t.insn_block);
            assert(self@.blocks =~= t.blocks);
            assert(self@ =~= t);
            assert forall|i: int| 0 <= i < self.graph.spec_vertices().len() implies
                #[trigger] self.graph.spec_vertices()[i].spec_index() == i by {
                assert(self@.blocks[i].index == i);
            }
        }
    }

    fn equal_or_phi_includes(&self, old_src: usize, new_src: usize) -> (r: bool)
        requires
            self.inv(),
            self@.wf(),
            old_src < self@.num_nodes(),
        ensures
            r == self@.equal_or_phi_includes(old_src, new_src),
    {
        let node = self.node(old_src);
        if node.is_phi() {
            contains_index(&node.srcs(), new_src)
        } else {
            old_src == new_src
        }
    }

    #[verifier::spinoff_prover]
    fn phi_merge(&mut self, old_src: usize, new_src: usize) -> (r: usize)
        requires
            old(self).inv(),
            old(self)@.wf(),
            old_src < old(self)@.num_nodes(),
            new_src < old(self)@.num_nodes(),
            old(self)@.num_nodes() + 1 < usize::MAX,
        ensures
            final(self).inv(),
            (final(self)@, r) == old(self)@.phi_merge(old_src, new_src),
    {
        let ghost s = self@;
        if self.node(old_src).is_phi() {
            let node = self.node_mut(old_src);
            let mut srcs = node.srcs();
            srcs.push(new_src);
            node.set_srcs(srcs);
            old_src
        } else {
            let phi_index = self.new_phi_node();
            proof {
                model::lemma_add_phi_node_wf(s, Seq::empty());
                assert(s.blocks[0].index == 0);
                assert(self@.blocks[0].nodes[s.blocks[0].nodes.len() as int].index == phi_index);
            }
            let ghost s1 = self@;
            let phi_node = self.node_mut(phi_index);
            phi_node.set_srcs(vec![old_src, new_src]);
            proof {
                let t = s.add_phi_node(seq![old_src, new_src]);
                assert(self@.blocks[0].nodes =~= t.blocks[0].nodes);
                assert(self@.blocks =~= t.blocks);
                assert(self@ =~= t);
            }
            phi_index
        }
    }

    fn update_information(&mut self, msg: &UtMsg, insn_index: usize)
        requires
            msg.timestamp.commit >= old(self)@.last_commit_timestamp,
        ensures
            final(self).inv() == old(self).inv(),
            final(self)@ == old(self)@.account(msg.timestamp.commit, insn_index),
    {
        let timestamp = msg.timestamp.commit;
        if timestamp > self.information.last_commit_timestamp {
            // The latency of each buffered node would be shared out here; the
            // buffer is emptied.
            self.information.insn_latency_buffer.clear();
        } else {
            self.information.insn_latency_buffer.push_back((insn_index, timestamp));
        }
    }
}

impl CFG {
    /// A graph holding only the empty phi block.
    pub fn new() -> (r: CFG)
        ensures
            r.wf(),
            r@.wf(),
            r@ == CfgView::initial(),
    {
        let mut cfg = CFG {
            graph: Graph::new(),
            next_block_index: 0,
            next_node_index: 0,
            pc_insn: BTreeMap::new(),
            insn_block: Vec::new(),
            stack: Table { last_insn: None, current_block: None, reg_table: BTreeMap::new() },
            information: Information {
                block_count: Vec::new(),
                last_commit_timestamp: 0,
                updated_timestamp: 0,
                insn_latency_buffer: VecDeque::new(),
            },
            statistic: Statistic {},
        };
        proof {
            assert(block_views(cfg.graph.spec_vertices()) =~= Seq::<BlockView>::empty());
            assert(edge_pairs(cfg.graph.spec_edges()) =~= Seq::<(usize, usize)>::empty());
        }
        cfg.new_block(None);
        proof {
            assert(cfg@ =~= CfgView::initial());
            assert(cfg@.blocks[0].index == 0);
        }
        cfg
    }

    /// The graph of blocks and edges.
    pub fn graph(&self) -> (r: &Graph<Block, Edge>)
        ensures
            block_views(r.spec_vertices()) == self@.blocks,
            edge_pairs(r.spec_edges()) == self@.edges,
    {
        &self.graph
    }

    /// Finds or creates the node of `insn`, creating or splitting blocks as the
    /// control flow requires.
    #[verifier::spinoff_prover]
    fn place(&mut self, insn: Insn) -> (r: usize)
        requires
            old(self).wf(),
            !old(self)@.split_repeats_edge(insn@),
            old(self)@.num_nodes() + 1 < usize::MAX,
            old(self)@.blocks.len() + 1 < usize::MAX,
        ensures
            final(self).inv(),
            (final(self)@, r) == old(self)@.place(insn@),
    {
        let ghost s = self@;
        let pc = insn.pc();
        let insn_option = match self.pc_insn.get(&pc) {
            Some(v) => Some(*v),
            None => None,
        };
        match insn_option {
            Some(global_insn) => {
                proof {
                    assert(s.pc_insn.contains_key(pc));
                }
                if self.last_insn_is_not_control() {
                    global_insn
                } else if self.last_insn_is_control() && !self.node_is_leading(global_insn) {
                    let old_block_index = self.block_index_of_insn(global_insn);
                    self.split_block(old_block_index, global_insn);
                    let ghost s1 = self@;
                    proof {
                        model::lemma_split_wf(s, old_block_index, s.insn_block[global_insn as int].1);
                    }
                    let last = self.last_insn().unwrap();
                    let head = self.block_index_of_insn(last);
                    let tail = self.block_index_of_insn(global_insn);
                    let ghost old_edges = self.graph.spec_edges();
                    proof {
                        let nb = s.blocks.len() as usize;
                        let k = s.insn_block[global_insn as int].1;
                        assert(s1.insn_block[global_insn as int] == (nb, 0usize));
                        assert(tail == nb);
                        assert(head != old_block_index) by {
                            if s.insn_block[last as int].0 == old_block_index {
                                assert(s.insn_block[last as int].1 >= k);
                            }
                        }
                        assert(head < s1.blocks.len());
                        assert(s1.edges == s.edges.push((old_block_index, nb)));
                        if self.graph.contains_edge(head, tail) {
                            let j = choose|j: int|
                                0 <= j < self.graph.spec_edges().len() && #[trigger] self.graph.spec_edges()[j].spec_head()
                                    == head && self.graph.spec_edges()[j].spec_tail() == tail;
                            assert(s1.edges[j] == (head, tail));
                            if j < s.edges.len() {
                                assert(s.edges[j].0 < s.blocks.len() && s.edges[j].1 < s.blocks.len());
                                assert(s1.edges[j] == s.edges[j]);
                            } else {
                                assert(s1.edges.len() == self.graph.spec_edges().len());
                                assert(j == s.edges.len());
                                assert(s1.edges[j] == (old_block_index, nb));
                            }
                        }
                    }
                    self.graph.insert_edge(Edge::new(head, tail)).unwrap();
                    proof {
                        assert(edge_pairs(self.graph.spec_edges()) =~= edge_pairs(old_edges).push((head, tail)));
                        assert(self@ =~= s.place(insn@).0);
                    }
                    global_insn
                } else {
                    global_insn
                }
            },
            None => {
                if self.last_insn_is_not_control() {
                    let current = self.current_block_index().unwrap();
                    self.new_insn_node(insn, current)
                } else {
                    let current = self.current_block_index();
                    let block = self.new_block(current);
                    proof {
                        model::lemma_add_block_wf(s, current);
                    }
                    self.new_insn_node(insn, block)
                }
            },
        }
    }

    #[verifier::spinoff_prover]
    /// Reconciles the sources of node `g` with the last writers of the registers it reads.
    fn resolve_srcs(&mut self, g: usize, regs: &Vec<u32>)
        requires
            old(self).wf(),
            g < old(self)@.num_nodes(),
            old(self)@.block_of(g) != 0,
            old(self)@.num_nodes() + regs@.len() < usize::MAX,
        ensures
            final(self).inv(),
            final(self)@ == old(self)@.resolve_srcs(g, regs@),
    {
        let ghost s = self@;
        proof {
            model::lemma_resolve_wf(s, g, regs@);
            model::lemma_lookup_srcs(s.reg_table, regs@, s.num_nodes());
        }
        let mut srcs: Vec<usize> = Vec::new();
        let mut i: usize = 0;
        while i < regs.len()
            invariant
                i <= regs@.len(),
                self@ == s,
                srcs@ == model::lookup_srcs(s.reg_table, regs@.take(i as int)),
            decreases regs@.len() - i,
        {
            let reg = regs[i] as usize;
            proof {
                assert(regs@.take(i + 1).drop_last() =~= regs@.take(i as int));
            }
            match self.stack.reg_table.get(&reg) {
                Some(reg_node) => {
                    srcs.push(*reg_node);
                },
                None => {},
            }
            i = i + 1;
        }
        proof {
            assert(regs@.take(regs@.len() as int) =~= regs@);
        }
        let ghost news = srcs@;
        let node = self.insn_node(g);
        let mut old_srcs = node.srcs();
        let ghost orig = old_srcs@;
        while old_srcs.len() < srcs.len()
            invariant
                orig.len() <= old_srcs@.len(),
                old_srcs@.len() <= orig.len() || old_srcs@.len() <= srcs@.len(),
                old_srcs@.take(orig.len() as int) == orig,
                forall|j: int| orig.len() <= j < old_srcs@.len() ==> #[trigger] old_srcs@[j] == srcs@[j],
            decreases srcs@.len() - old_srcs@.len(),
        {
            let next = srcs[old_srcs.len()];
            let ghost before = old_srcs@;
            old_srcs.push(next);
            proof {
                assert(old_srcs@.take(orig.len() as int) =~= before.take(orig.len() as int));
            }
        }
        let ghost olds = model::pad_srcs(orig, news);
        proof {
            if orig.len() < news.len() {
                assert(old_srcs@ =~= olds);
            } else {
                assert(old_srcs@ =~= olds);
            }
        }
        let ghost olds2 = olds.take(news.len() as int);
        let mut final_srcs: Vec<usize> = Vec::new();
        let mut i: usize = 0;
        proof {
            assert(olds2.take(0) =~= Seq::<usize>::empty());
            assert(news.take(0) =~= Seq::<usize>::empty());
        }
        while i < srcs.len()
            invariant
                i <= news.len(),
                srcs@ == news,
                old_srcs@ == olds,
                olds.len() >= news.len(),
                olds2 == olds.take(news.len() as int),
                s.wf(),
                g < s.num_nodes(),
                s.block_of(g) != 0,
                s.num_nodes() + news.len() < usize::MAX,
                forall|j: int| 0 <= j < olds2.len() ==> #[trigger] olds2[j] < s.num_nodes(),
                forall|j: int| 0 <= j < news.len() ==> #[trigger] news[j] < s.num_nodes(),
                self.inv(),
                (self@, final_srcs@) == s.merge_srcs(olds2.take(i as int), news.take(i as int)),
            decreases news.len() - i,
        {
            let o = old_srcs[i];
            let n = srcs[i];
            proof {
                let oi = olds2.take(i as int);
                let ni = news.take(i as int);
                assert forall|j: int| 0 <= j < oi.len() implies #[trigger] oi[j] < s.num_nodes() by {
                    assert(oi[j] == olds2[j]);
                }
                assert forall|j: int| 0 <= j < ni.len() implies #[trigger] ni[j] < s.num_nodes() by {
                    assert(ni[j] == news[j]);
                }
                assert(s.blocks[0].index == 0);
                model::lemma_merge_srcs_wf(s, oi, ni);
                assert(olds2.take(i + 1).take(i as int) =~= oi);
                assert(news.take(i + 1).drop_last() =~= ni);
                assert(olds2.take(i + 1)[i as int] == o);
                assert(news.take(i + 1).last() == n);
                assert(o == olds2[i as int]);
            }
            if !self.equal_or_phi_includes(o, n) {
                let phi_index = self.phi_merge(o, n);
                final_srcs.push(phi_index);
            } else {
                final_srcs.push(o);
            }
            i = i + 1;
        }
        proof {
            assert(olds2.take(news.len() as int) =~= olds2);
            assert(news.take(news.len() as int) =~= news);
            assert(s.blocks[0].index == 0);
            model::lemma_merge_srcs_wf(s, olds2, news);
            let t = self@;
            let (b, p) = s.insn_block[g as int];
            assert(t.blocks[b as int] == s.blocks[b as int]);
        }
        let node = self.insn_node_mut(g);
        node.set_srcs(final_srcs);
    }

    /// Adds one committed instruction of the trace.
    ///
    /// A new program counter gets a new node: appended to the current block where
    /// the last instruction does not transfer control, else at the start of a new
    /// block entered from the current one. A program counter seen before keeps its
    /// node; where a transfer of control reaches it in the middle of its block, the
    /// block is split before it and an edge added from the block of the jumping
    /// instruction. The node's sources are then reconciled with the last writers of
    /// the registers it reads, merging differing writers in phi nodes, and it becomes
    /// the last writer of the registers it writes.
    pub fn parse_msg(&mut self, msg: UtMsg)
        requires
            old(self).wf(),
            !old(self)@.split_repeats_edge(inst_view(msg.inst)),
            old(self)@.num_nodes() + 1 + model::reads_len(model::msg_view(msg)) < usize::MAX,
            old(self)@.blocks.len() + 1 < usize::MAX,
        ensures
            final(self).wf(),
            final(self)@.wf(),
            final(self)@ == old(self)@.parse(model::msg_view(msg)),
    {
        self.parse_msg_ref(&msg);
    }

    #[verifier::spinoff_prover]
    pub(crate) fn parse_msg_ref(&mut self, msg: &UtMsg)
        requires
            old(self).wf(),
            !old(self)@.split_repeats_edge(inst_view(msg.inst)),
            old(self)@.num_nodes() + 1 + model::reads_len(model::msg_view(*msg)) < usize::MAX,
            old(self)@.blocks.len() + 1 < usize::MAX,
        ensures
            final(self).wf(),
            final(self)@.wf(),
            final(self)@ == old(self)@.parse(model::msg_view(*msg)),
    {
        let ghost s = self@;
        let ghost mv = model::msg_view(*msg);
        proof {
            model::lemma_parse_wf(s, mv);
            model::lemma_place_wf(s, mv.insn);
        }
        let insn = Insn::new(msg);
        let new_insn_node = self.place(insn);
        let ghost s1 = self@;
        match &msg.reg {
            Some(reg_access) => {
                proof {
                    model::lemma_resolve_wf(s1, new_insn_node, reg_access.srcs@);
                }
                self.resolve_srcs(new_insn_node, &reg_access.srcs);
            },
            None => {},
        }
        let ghost s2 = self@;
        let b = self.insn_node(new_insn_node).block();
        self.stack.last_insn = Some(new_insn_node);
        self.stack.current_block = Some(b);
        match &msg.reg {
            Some(reg_access) => {
                let dsts = &reg_access.dsts;
                let mut i: usize = 0;
                while i < dsts.len()
                    invariant
                        i <= dsts@.len(),
                        self.inv(),
                        self@ == (CfgView {
                            last_insn: Some(new_insn_node),
                            current_block: Some(b),
                            reg_table: model::record_dsts(s2.reg_table, dsts@.take(i as int), new_insn_node),
                            ..s2
                        }),
                    decreases dsts@.len() - i,
                {
                    let dst = dsts[i] as usize;
                    self.stack.reg_table.insert(dst, new_insn_node);
                    proof {
                        assert(dsts@.take(i + 1).drop_last() =~= dsts@.take(i as int));
                        assert(self@.reg_table =~= model::record_dsts(s2.reg_table, dsts@.take(i + 1), new_insn_node));
                    }
                    i = i + 1;
                }
                proof {
                    assert(dsts@.take(dsts@.len() as int) =~= dsts@);
                }
            },
            None => {},
        }
        self.update_information(msg, new_insn_node);
    }

    /// Checks that parsing `msg` would not jump back into the middle of the block of
    /// the jumping instruction, ahead of it: the edge the split adds would exist
    /// already, and the edge's insertion fails.
    pub fn check_msg(&self, msg: &UtMsg) -> (r: Result<(), Error>)
        requires
            self.wf(),
        ensures
            r is Err <==> self@.split_repeats_edge(inst_view(msg.inst)),
            r is Err ==> r == Err::<(), Error>(self@.repeated_edge_error(inst_view(msg.inst))),
    {
        let pc = msg.inst.pc;
        match self.pc_insn.get(&pc) {
            Some(g) => {
                let g = *g;
                if self.last_insn_is_not_control() || !self.last_insn_is_control() || self.node_is_leading(g) {
                    Ok(())
                } else {
                    let l = self.last_insn().unwrap();
                    let b = self.block_index_of_insn(g);
                    if self.block_index_of_insn(l) == b && self.insn_block[l].1 < self.insn_block[g].1 {
                        Err(Error::GraphDuplicateEdge(b, self.next_block_index))
                    } else {
                        Ok(())
                    }
                }
            },
            None => Ok(()),
        }
    }

    /// The number of nodes.
    pub fn num_nodes(&self) -> (r: usize)
        requires
            self.wf(),
        ensures
            r == self@.num_nodes(),
    {
        self.next_node_index
    }

    /// The number of blocks.
    pub fn num_blocks(&self) -> (r: usize)
        requires
            self.wf(),
        ensures
            r == self@.blocks.len(),
    {
        self.next_block_index
    }
}

} // verus!
