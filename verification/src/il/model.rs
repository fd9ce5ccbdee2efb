use vstd::prelude::*;
use crate::il::block::BlockView;
use crate::il::node::NodeView;
use crate::instruction::{InsnView, inst_view};
use crate::errors::Error;
use crate::streamer::proto::UtMsg;

verus! {

/// The abstract value of a trace message.
pub struct MsgView {
    /// The instruction.
    pub insn: InsnView,
    /// The commit timestamp.
    pub commit: u64,
    /// The registers read and the registers written, where recorded.
    pub reg: Option<(Seq<u32>, Seq<u32>)>,
}

/// The abstract value of a trace message.
pub open spec fn msg_view(msg: UtMsg) -> MsgView {
    MsgView {
        insn: inst_view(msg.inst),
        commit: msg.timestamp.commit,
        reg: match msg.reg {
            Some(r) => Some((r.srcs@, r.dsts@)),
            None => None,
        },
    }
}

/// The abstract value of a control-flow graph under construction.
pub struct CfgView {
    /// The blocks; block `b` has index `b`. Block 0 holds the phi nodes.
    pub blocks: Seq<BlockView>,
    /// The control-flow edges, as (head, tail) pairs, in insertion order.
    pub edges: Seq<(usize, usize)>,
    /// The instruction node created for each program counter seen.
    pub pc_insn: Map<u64, usize>,
    /// For each node, by global index: its block and its position in that block.
    pub insn_block: Seq<(usize, usize)>,
    /// The node of the last instruction parsed.
    pub last_insn: Option<usize>,
    /// The block recorded by the node of the last instruction parsed.
    pub current_block: Option<usize>,
    /// For each register: the node that last wrote it.
    pub reg_table: Map<usize, usize>,
    /// The nodes committed in the current cycle, with that cycle.
    pub latency_buffer: Seq<(usize, u64)>,
    /// The last commit cycle whose latencies were accounted.
    pub last_commit_timestamp: u64,
}

/// The registers' last writers that a list of read registers selects, in order;
/// registers that no node has written are skipped.
pub open spec fn lookup_srcs(table: Map<usize, usize>, regs: Seq<u32>) -> Seq<usize>
    decreases regs.len(),
{
    if regs.len() == 0 {
        Seq::empty()
    } else {
        let rest = lookup_srcs(table, regs.drop_last());
        let r = regs.last() as usize;
        if table.contains_key(r) {
            rest.push(table[r])
        } else {
            rest
        }
    }
}

/// The table after the node `n` writes each register of `dsts`, in order.
pub open spec fn record_dsts(table: Map<usize, usize>, dsts: Seq<u32>, n: usize) -> Map<usize, usize>
    decreases dsts.len(),
{
    if dsts.len() == 0 {
        table
    } else {
        record_dsts(table, dsts.drop_last(), n).insert(dsts.last() as usize, n)
    }
}

/// The old sources, extended with the new ones beyond their length.
pub open spec fn pad_srcs(old: Seq<usize>, new: Seq<usize>) -> Seq<usize> {
    if old.len() < new.len() {
        old + new.skip(old.len() as int)
    } else {
        old
    }
}

impl CfgView {
    /// The state before any message: the phi block alone.
    pub open spec fn initial() -> CfgView {
        CfgView {
            blocks: seq![BlockView { index: 0, nodes: Seq::empty() }],
            edges: Seq::empty(),
            pc_insn: Map::empty(),
            insn_block: Seq::empty(),
            last_insn: None,
            current_block: None,
            reg_table: Map::empty(),
            latency_buffer: Seq::empty(),
            last_commit_timestamp: 0,
        }
    }

    /// The number of nodes.
    pub open spec fn num_nodes(self) -> nat {
        self.insn_block.len()
    }

    /// The node with global index `n`.
    pub open spec fn node(self, n: usize) -> NodeView {
        self.blocks[self.insn_block[n as int].0 as int].nodes[self.insn_block[n as int].1 as int]
    }

    /// The block that holds node `n`.
    pub open spec fn block_of(self, n: usize) -> usize {
        self.insn_block[n as int].0
    }

    /// Whether node `n` is the first of its block.
    pub open spec fn is_leading(self, n: usize) -> bool {
        self.insn_block[n as int].1 == 0
    }

    /// Whether there is a last instruction and it transfers control.
    pub open spec fn last_is_control(self) -> bool {
        match self.last_insn {
            Some(l) => self.node(l).insn.unwrap().is_control(),
            None => false,
        }
    }

    /// Whether there is a last instruction and it does not transfer control.
    pub open spec fn last_is_not_control(self) -> bool {
        match self.last_insn {
            Some(l) => !self.node(l).insn.unwrap().is_control(),
            None => false,
        }
    }

    /// Block `b` with its nodes replaced.
    pub open spec fn with_nodes(self, b: usize, nodes: Seq<NodeView>) -> CfgView {
        CfgView {
            blocks: self.blocks.update(b as int, BlockView { nodes, ..self.blocks[b as int] }),
            ..self
        }
    }

    /// Node `n` with its sources replaced.
    pub open spec fn with_srcs(self, n: usize, srcs: Seq<usize>) -> CfgView {
        let (b, i) = self.insn_block[n as int];
        self.with_nodes(b, self.blocks[b as int].nodes.update(i as int, NodeView { srcs, ..self.node(n) }))
    }

    /// A new empty block, entered from block `last` where there is one.
    pub open spec fn add_block(self, last: Option<usize>) -> CfgView {
        let index = self.blocks.len() as usize;
        CfgView {
            blocks: self.blocks.push(BlockView { index, nodes: Seq::empty() }),
            edges: match last {
                Some(l) => self.edges.push((l, index)),
                None => self.edges,
            },
            ..self
        }
    }

    /// A new instruction node for `insn` at the end of block `b`, recorded as the
    /// node of the instruction's program counter; the node's index is the number of
    /// nodes so far.
    pub open spec fn add_insn_node(self, insn: InsnView, b: usize) -> CfgView {
        let n = self.num_nodes() as usize;
        let pos = self.blocks[b as int].nodes.len() as usize;
        CfgView {
            insn_block: self.insn_block.push((b, pos)),
            pc_insn: self.pc_insn.insert(insn.pc, n),
            ..self.with_nodes(
                b,
                self.blocks[b as int].nodes.push(
                    NodeView { block: self.blocks[b as int].index, index: n, insn: Some(insn), srcs: Seq::empty() },
                ),
            )
        }
    }

    /// A new phi node with sources `srcs` at the end of block 0; its index is the
    /// number of nodes so far.
    pub open spec fn add_phi_node(self, srcs: Seq<usize>) -> CfgView {
        let n = self.num_nodes() as usize;
        let pos = self.blocks[0].nodes.len() as usize;
        CfgView {
            insn_block: self.insn_block.push((0, pos)),
            ..self.with_nodes(
                0,
                self.blocks[0].nodes.push(NodeView { block: self.blocks[0].index, index: n, insn: None, srcs }),
            )
        }
    }

    /// Block `b` split before position `k`: its nodes from position `k` on move, in
    /// order, to a new block entered from block `b`.
    pub open spec fn split(self, b: usize, k: usize) -> CfgView {
        let added = self.add_block(Some(b));
        let nb = self.blocks.len() as usize;
        let nodes = self.blocks[b as int].nodes;
        CfgView {
            blocks: added.blocks.update(b as int, BlockView { nodes: nodes.take(k as int), ..self.blocks[b as int] })
                .update(nb as int, BlockView { index: nb, nodes: nodes.skip(k as int) }),
            insn_block: Seq::new(
                self.insn_block.len(),
                |n: int|
                    if self.insn_block[n].0 == b && self.insn_block[n].1 >= k {
                        (nb, (self.insn_block[n].1 - k) as usize)
                    } else {
                        self.insn_block[n]
                    },
            ),
            ..added
        }
    }

    /// Whether node `old` is node `new`, or a phi node that already merges `new`.
    pub open spec fn equal_or_phi_includes(self, old: usize, new: usize) -> bool {
        if self.node(old).is_phi() {
            self.node(old).srcs.contains(new)
        } else {
            old == new
        }
    }

    /// Merges `new` into `old`: a phi node `old` takes `new` as one more source;
    /// otherwise a new phi node merges the two. Also gives the merging node.
    pub open spec fn phi_merge(self, old: usize, new: usize) -> (CfgView, usize) {
        if self.node(old).is_phi() {
            (self.with_srcs(old, self.node(old).srcs.push(new)), old)
        } else {
            (self.add_phi_node(seq![old, new]), self.num_nodes() as usize)
        }
    }

    /// Reconciles, position by position, the old sources `olds` of a node with the
    /// new sources `news`: a position keeps its old source where that one is, or
    /// already merges, the new one; otherwise it takes the phi merge of the two.
    /// Gives the state and the reconciled sources.
    pub open spec fn merge_srcs(self, olds: Seq<usize>, news: Seq<usize>) -> (CfgView, Seq<usize>)
        decreases news.len(),
    {
        if news.len() == 0 || olds.len() < news.len() {
            (self, Seq::empty())
        } else {
            let (s1, acc) = self.merge_srcs(olds.take(news.len() - 1), news.drop_last());
            let o = olds[news.len() - 1];
            let n = news.last();
            if s1.equal_or_phi_includes(o, n) {
                (s1, acc.push(o))
            } else {
                let (s2, p) = s1.phi_merge(o, n);
                (s2, acc.push(p))
            }
        }
    }

    /// The node of an instruction with program counter `pc`, together with the
    /// state after the blocks have been arranged for it.
    pub open spec fn place(self, insn: InsnView) -> (CfgView, usize) {
        if self.pc_insn.contains_key(insn.pc) {
            let g = self.pc_insn[insn.pc];
            if self.last_is_not_control() {
                (self, g)
            } else if self.last_is_control() && !self.is_leading(g) {
                let s1 = self.split(self.block_of(g), self.insn_block[g as int].1);
                let l = self.last_insn.unwrap();
                (CfgView { edges: s1.edges.push((s1.block_of(l), s1.block_of(g))), ..s1 }, g)
            } else {
                (self, g)
            }
        } else if self.last_is_not_control() {
            (self.add_insn_node(insn, self.current_block.unwrap()), self.num_nodes() as usize)
        } else {
            let s1 = self.add_block(self.current_block);
            (s1.add_insn_node(insn, (s1.blocks.len() - 1) as usize), self.num_nodes() as usize)
        }
    }

    /// The state after the node `g` reads the registers `regs`.
    pub open spec fn resolve_srcs(self, g: usize, regs: Seq<u32>) -> CfgView {
        let news = lookup_srcs(self.reg_table, regs);
        let olds = pad_srcs(self.node(g).srcs, news);
        let (s1, fin) = self.merge_srcs(olds.take(news.len() as int), news);
        s1.with_srcs(g, fin)
    }

    /// The latency bookkeeping after node `n` commits in cycle `commit`.
    pub open spec fn account(self, commit: u64, n: usize) -> CfgView {
        if commit > self.last_commit_timestamp {
            CfgView { latency_buffer: Seq::empty(), ..self }
        } else {
            CfgView { latency_buffer: self.latency_buffer.push((n, commit)), ..self }
        }
    }

    /// The state after one trace message.
    pub open spec fn parse(self, msg: MsgView) -> CfgView {
        let (s1, g) = self.place(msg.insn);
        let s2 = match msg.reg {
            Some((srcs, _)) => s1.resolve_srcs(g, srcs),
            None => s1,
        };
        let s3 = CfgView {
            last_insn: Some(g),
            current_block: Some(s2.node(g).block),
            reg_table: match msg.reg {
                Some((_, dsts)) => record_dsts(s2.reg_table, dsts, g),
                None => s2.reg_table,
            },
            ..s2
        };
        s3.account(msg.commit, g)
    }

    /// Whether a message would jump back into the middle of the block that holds
    /// the jumping instruction, ahead of it: the edge that the split would add is
    /// already there.
    pub open spec fn split_repeats_edge(self, insn: InsnView) -> bool {
        &&& self.pc_insn.contains_key(insn.pc)
        &&& !self.last_is_not_control()
        &&& self.last_is_control()
        &&& !self.is_leading(self.pc_insn[insn.pc])
        &&& self.block_of(self.last_insn.unwrap()) == self.block_of(self.pc_insn[insn.pc])
        &&& self.insn_block[self.last_insn.unwrap() as int].1 < self.insn_block[self.pc_insn[insn.pc] as int].1
    }

    /// `t` differs from this state only in the phi block and in nodes added after the
    /// existing ones.
    pub open spec fn extends_phis(self, t: CfgView) -> bool {
        &&& t.blocks.len() == self.blocks.len()
        &&& forall|b: int| 1 <= b < self.blocks.len() ==> #[trigger] t.blocks[b] == self.blocks[b]
        &&& t.blocks[0].index == self.blocks[0].index
        &&& self.insn_block.len() <= t.insn_block.len()
        &&& forall|m: int| 0 <= m < self.insn_block.len() ==> #[trigger] t.insn_block[m] == self.insn_block[m]
        &&& t.edges == self.edges
        &&& t.pc_insn == self.pc_insn
        &&& t.last_insn == self.last_insn
        &&& t.current_block == self.current_block
        &&& t.reg_table == self.reg_table
        &&& t.latency_buffer == self.latency_buffer
        &&& t.last_commit_timestamp == self.last_commit_timestamp
    }

    /// The error for a message whose split would repeat an edge: the edge from the
    /// block of its node to the block the split would create.
    pub open spec fn repeated_edge_error(self, insn: InsnView) -> Error {
        Error::GraphDuplicateEdge(self.block_of(self.pc_insn[insn.pc]), self.blocks.len() as usize)
    }

    /// The invariant of the construction.
    pub open spec fn wf(self) -> bool {
        &&& 1 <= self.blocks.len() <= usize::MAX
        &&& forall|b: int| 0 <= b < self.blocks.len() ==> #[trigger] self.blocks[b].index == b
            && self.blocks[b].nodes.len() <= usize::MAX && self.blocks[b].nodes.len() <= self.insn_block.len()
        &&& forall|j: int|
            0 <= j < self.edges.len() ==> #[trigger] self.edges[j].0 < self.blocks.len()
                && self.edges[j].1 < self.blocks.len()
        &&& forall|j: int, k: int| 0 <= j < k < self.edges.len() ==> #[trigger] self.edges[j] != #[trigger] self.edges[k]
        &&& forall|n: int|
            0 <= n < self.insn_block.len() ==> {
                let (b, i) = #[trigger] self.insn_block[n];
                &&& b < self.blocks.len()
                &&& i < self.blocks[b as int].nodes.len()
                &&& self.blocks[b as int].nodes[i as int].index == n
            }
        &&& forall|b: int, i: int|
            0 <= b < self.blocks.len() && 0 <= i < self.blocks[b].nodes.len() ==> {
                let nd = #[trigger] self.blocks[b].nodes[i];
                &&& nd.index < self.insn_block.len()
                &&& self.insn_block[nd.index as int] == (b as usize, i as usize)
                &&& (b == 0 <==> nd.is_phi())
                &&& (b == 0 ==> nd.block == 0)
                &&& (b != 0 ==> 1 <= nd.block < self.blocks.len())
                &&& forall|j: int| 0 <= j < nd.srcs.len() ==> #[trigger] nd.srcs[j] < self.insn_block.len()
            }
        &&& forall|pc: u64|
            #[trigger] self.pc_insn.contains_key(pc) ==> self.pc_insn[pc] < self.insn_block.len()
                && self.insn_block[self.pc_insn[pc] as int].0 != 0
                && (self.node(self.pc_insn[pc]).insn matches Some(i) && i.pc == pc)
        &&& (self.last_insn is Some <==> self.current_block is Some)
        &&& (self.last_insn matches Some(l) ==> l < self.insn_block.len() && self.insn_block[l as int].0 != 0)
        &&& (self.current_block matches Some(c) ==> 1 <= c < self.blocks.len())
        &&& forall|r: usize| #[trigger] self.reg_table.contains_key(r) ==> self.reg_table[r] < self.insn_block.len()
        &&& self.last_commit_timestamp == 0
    }
}

/// Adding a block keeps the invariant.
#[verifier::spinoff_prover]
#[verifier::rlimit(40)]
pub proof fn lemma_add_block_wf(s: CfgView, last: Option<usize>)
    requires
        s.wf(),
        last matches Some(l) ==> l < s.blocks.len(),
        s.blocks.len() < usize::MAX,
    ensures
        s.add_block(last).wf(),
{
    let t = s.add_block(last);
    assert forall|b: int, i: int|
        0 <= b < t.blocks.len() && 0 <= i < t.blocks[b].nodes.len() implies {
            let nd = #[trigger] t.blocks[b].nodes[i];
            &&& nd.index < t.insn_block.len()
            &&& t.insn_block[nd.index as int] == (b as usize, i as usize)
            &&& (b == 0 <==> nd.is_phi())
            &&& (b == 0 ==> nd.block == 0)
            &&& (b != 0 ==> 1 <= nd.block < t.blocks.len())
            &&& forall|j: int| 0 <= j < nd.srcs.len() ==> #[trigger] nd.srcs[j] < t.insn_block.len()
        } by {
        assert(b < s.blocks.len());
        assert(t.blocks[b] == s.blocks[b]);
    }
    assert forall|j: int, k: int| 0 <= j < k < t.edges.len() implies #[trigger] t.edges[j] != #[trigger] t.edges[k] by {
        if k == s.edges.len() {
            assert(s.edges[j].0 < s.blocks.len() && s.edges[j].1 < s.blocks.len());
        } else {
            assert(s.edges[j] != s.edges[k]);
        }
    }
}

/// Adding an instruction node to a non-phi block keeps the invariant.
#[verifier::spinoff_prover]
#[verifier::rlimit(40)]
pub proof fn lemma_add_insn_node_wf(s: CfgView, insn: InsnView, b: usize)
    requires
        s.wf(),
        1 <= b < s.blocks.len(),
        s.insn_block.len() < usize::MAX,
        s.blocks[b as int].nodes.len() < usize::MAX,
    ensures
        s.add_insn_node(insn, b).wf(),
{
    let t = s.add_insn_node(insn, b);
    let n = s.insn_block.len();
    assert forall|m: int| 0 <= m < t.insn_block.len() implies {
        let (bb, i) = #[trigger] t.insn_block[m];
        &&& bb < t.blocks.len()
        &&& i < t.blocks[bb as int].nodes.len()
        &&& t.blocks[bb as int].nodes[i as int].index == m
    } by {
        if m < n {
            let (bb, i) = s.insn_block[m];
            assert(s.blocks[bb as int].nodes[i as int].index == m);
        }
    }
    assert forall|bb: int, i: int|
        0 <= bb < t.blocks.len() && 0 <= i < t.blocks[bb].nodes.len() implies {
            let nd = #[trigger] t.blocks[bb].nodes[i];
            &&& nd.index < t.insn_block.len()
            &&& t.insn_block[nd.index as int] == (bb as usize, i as usize)
            &&& (bb == 0 <==> nd.is_phi())
            &&& (bb == 0 ==> nd.block == 0)
            &&& (bb != 0 ==> 1 <= nd.block < t.blocks.len())
            &&& forall|j: int| 0 <= j < nd.srcs.len() ==> #[trigger] nd.srcs[j] < t.insn_block.len()
        } by {
        if bb == b && i == s.blocks[b as int].nodes.len() {
        } else {
            let nd = s.blocks[bb].nodes[i];
            assert(t.blocks[bb].nodes[i] == nd);
            assert(forall|j: int| 0 <= j < nd.srcs.len() ==> #[trigger] nd.srcs[j] < s.insn_block.len());
        }
    }
    assert forall|pc: u64| #[trigger] t.pc_insn.contains_key(pc) implies t.pc_insn[pc] < t.insn_block.len()
        && t.insn_block[t.pc_insn[pc] as int].0 != 0
        && (t.node(t.pc_insn[pc]).insn matches Some(i) && i.pc == pc) by {
        if pc != insn.pc {
            assert(s.pc_insn.contains_key(pc));
        }
    }
    assert forall|r: usize| #[trigger] t.reg_table.contains_key(r) implies t.reg_table[r] < t.insn_block.len() by {
        assert(s.reg_table.contains_key(r));
    }
}

/// Adding a phi node whose sources are nodes keeps the invariant.
#[verifier::spinoff_prover]
#[verifier::rlimit(40)]
pub proof fn lemma_add_phi_node_wf(s: CfgView, srcs: Seq<usize>)
    requires
        s.wf(),
        forall|j: int| 0 <= j < srcs.len() ==> #[trigger] srcs[j] < s.insn_block.len(),
        s.insn_block.len() < usize::MAX,
        s.blocks[0].nodes.len() < usize::MAX,
    ensures
        s.add_phi_node(srcs).wf(),
{
    let t = s.add_phi_node(srcs);
    let n = s.insn_block.len();
    assert forall|m: int| 0 <= m < t.insn_block.len() implies {
        let (bb, i) = #[trigger] t.insn_block[m];
        &&& bb < t.blocks.len()
        &&& i < t.blocks[bb as int].nodes.len()
        &&& t.blocks[bb as int].nodes[i as int].index == m
    } by {
        if m < n {
            let (bb, i) = s.insn_block[m];
            assert(s.blocks[bb as int].nodes[i as int].index == m);
        }
    }
    assert forall|bb: int, i: int|
        0 <= bb < t.blocks.len() && 0 <= i < t.blocks[bb].nodes.len() implies {
            let nd = #[trigger] t.blocks[bb].nodes[i];
            &&& nd.index < t.insn_block.len()
            &&& t.insn_block[nd.index as int] == (bb as usize, i as usize)
            &&& (bb == 0 <==> nd.is_phi())
            &&& (bb == 0 ==> nd.block == 0)
            &&& (bb != 0 ==> 1 <= nd.block < t.blocks.len())
            &&& forall|j: int| 0 <= j < nd.srcs.len() ==> #[trigger] nd.srcs[j] < t.insn_block.len()
        } by {
        if bb == 0 && i == s.blocks[0].nodes.len() {
        } else {
            let nd = s.blocks[bb].nodes[i];
            assert(t.blocks[bb].nodes[i] == nd);
            assert(forall|j: int| 0 <= j < nd.srcs.len() ==> #[trigger] nd.srcs[j] < s.insn_block.len());
        }
    }
    assert forall|pc: u64| #[trigger] t.pc_insn.contains_key(pc) implies t.pc_insn[pc] < t.insn_block.len()
        && t.insn_block[t.pc_insn[pc] as int].0 != 0
        && (t.node(t.pc_insn[pc]).insn matches Some(i) && i.pc == pc) by {
        assert(s.pc_insn.contains_key(pc));
    }
    assert forall|r: usize| #[trigger] t.reg_table.contains_key(r) implies t.reg_table[r] < t.insn_block.len() by {
        assert(s.reg_table.contains_key(r));
    }
}

/// Replacing the sources of a node by nodes keeps the invariant.
#[verifier::spinoff_prover]
#[verifier::rlimit(40)]
pub proof fn lemma_with_srcs_wf(s: CfgView, n: usize, srcs: Seq<usize>)
    requires
        s.wf(),
        n < s.insn_block.len(),
        forall|j: int| 0 <= j < srcs.len() ==> #[trigger] srcs[j] < s.insn_block.len(),
    ensures
        s.with_srcs(n, srcs).wf(),
        s.with_srcs(n, srcs).insn_block == s.insn_block,
        s.with_srcs(n, srcs).node(n) == (NodeView { srcs, ..s.node(n) }),
        forall|m: usize| m < s.insn_block.len() && m != n ==> #[trigger] s.with_srcs(n, srcs).node(m) == s.node(m),
{
    let t = s.with_srcs(n, srcs);
    let (b, i) = s.insn_block[n as int];
    assert(s.blocks[b as int].nodes[i as int].index == n);
    assert forall|bb: int, ii: int|
        0 <= bb < t.blocks.len() && 0 <= ii < t.blocks[bb].nodes.len() implies {
            let nd = #[trigger] t.blocks[bb].nodes[ii];
            &&& nd.index < t.insn_block.len()
            &&& t.insn_block[nd.index as int] == (bb as usize, ii as usize)
            &&& (bb == 0 <==> nd.is_phi())
            &&& (bb == 0 ==> nd.block == 0)
            &&& (bb != 0 ==> 1 <= nd.block < t.blocks.len())
            &&& forall|j: int| 0 <= j < nd.srcs.len() ==> #[trigger] nd.srcs[j] < t.insn_block.len()
        } by {
        if bb == b && ii == i {
        } else {
            let nd = s.blocks[bb].nodes[ii];
            assert(t.blocks[bb].nodes[ii] == nd);
            assert(forall|j: int| 0 <= j < nd.srcs.len() ==> #[trigger] nd.srcs[j] < s.insn_block.len());
        }
    }
    assert forall|m: int| 0 <= m < t.insn_block.len() implies {
        let (bb, ii) = #[trigger] t.insn_block[m];
        &&& bb < t.blocks.len()
        &&& ii < t.blocks[bb as int].nodes.len()
        &&& t.blocks[bb as int].nodes[ii as int].index == m
    } by {
        let (bb, ii) = s.insn_block[m];
        assert(s.blocks[bb as int].nodes[ii as int].index == m);
    }
    assert forall|m: usize| m < s.insn_block.len() && m != n implies #[trigger] t.node(m) == s.node(m) by {
        let (bb, ii) = s.insn_block[m as int];
        assert(s.blocks[bb as int].nodes[ii as int].index == m);
    }
}

/// Splitting a non-phi block keeps the invariant, and every node keeps its value.
#[verifier::spinoff_prover]
#[verifier::rlimit(40)]
pub proof fn lemma_split_wf(s: CfgView, b: usize, k: usize)
    requires
        s.wf(),
        1 <= b < s.blocks.len(),
        k <= s.blocks[b as int].nodes.len(),
        s.blocks.len() < usize::MAX,
    ensures
        s.split(b, k).wf(),
        forall|m: usize| m < s.insn_block.len() ==> #[trigger] s.split(b, k).node(m) == s.node(m),
        s.split(b, k).insn_block.len() == s.insn_block.len(),
{
    let t = s.split(b, k);
    let nb = s.blocks.len() as usize;
    let nodes = s.blocks[b as int].nodes;
    assert(t.blocks.len() == nb + 1);
    assert forall|bb: int| 0 <= bb < t.blocks.len() implies #[trigger] t.blocks[bb].index == bb
        && t.blocks[bb].nodes.len() <= usize::MAX by {
        if bb < nb {
            assert(s.blocks[bb].index == bb && s.blocks[bb].nodes.len() <= usize::MAX);
        }
        assert(s.blocks[b as int].index == b);
        assert(t.blocks[bb].nodes.len() <= nodes.len() || bb != b && bb != nb);
        assert(t.blocks[bb].nodes.len() <= t.insn_block.len());
    }
    assert forall|j: int, jj: int| 0 <= j < jj < t.edges.len() implies #[trigger] t.edges[j] != #[trigger] t.edges[jj] by {
        if jj == s.edges.len() {
            assert(s.edges[j].0 < s.blocks.len() && s.edges[j].1 < s.blocks.len());
        } else {
            assert(s.edges[j] != s.edges[jj]);
        }
    }
    assert forall|j: int| 0 <= j < t.edges.len() implies #[trigger] t.edges[j].0 < t.blocks.len()
        && t.edges[j].1 < t.blocks.len() by {
        if j < s.edges.len() {
            assert(s.edges[j].0 < s.blocks.len() && s.edges[j].1 < s.blocks.len());
        }
    }
    assert forall|m: int| 0 <= m < t.insn_block.len() implies {
        let (bb, i) = #[trigger] t.insn_block[m];
        &&& bb < t.blocks.len()
        &&& i < t.blocks[bb as int].nodes.len()
        &&& t.blocks[bb as int].nodes[i as int].index == m
    } by {
        let (ob, oi) = s.insn_block[m];
        assert(s.blocks[ob as int].nodes[oi as int].index == m);
    }
    assert forall|bb: int, i: int|
        0 <= bb < t.blocks.len() && 0 <= i < t.blocks[bb].nodes.len() implies {
            let nd = #[trigger] t.blocks[bb].nodes[i];
            &&& nd.index < t.insn_block.len()
            &&& t.insn_block[nd.index as int] == (bb as usize, i as usize)
            &&& (bb == 0 <==> nd.is_phi())
            &&& (bb == 0 ==> nd.block == 0)
            &&& (bb != 0 ==> 1 <= nd.block < t.blocks.len())
            &&& forall|j: int| 0 <= j < nd.srcs.len() ==> #[trigger] nd.srcs[j] < t.insn_block.len()
        } by {
        let (ob, oi) = if bb == nb { (b as int, i + k) } else { (bb, i) };
        let nd = s.blocks[ob].nodes[oi];
        assert(t.blocks[bb].nodes[i] == nd);
        assert(forall|j: int| 0 <= j < nd.srcs.len() ==> #[trigger] nd.srcs[j] < s.insn_block.len());
        assert(s.insn_block[nd.index as int] == (ob as usize, oi as usize));
        assert(nd.index < t.insn_block.len());
        let m = nd.index as int;
        assert(t.insn_block[m] == (if s.insn_block[m].0 == b && s.insn_block[m].1 >= k {
            (nb, (s.insn_block[m].1 - k) as usize)
        } else {
            s.insn_block[m]
        }));
        if bb == nb {
            assert(s.insn_block[m].1 >= k);
        } else if bb == b {
            assert(i < k);
        }
        assert(t.insn_block[nd.index as int] == (bb as usize, i as usize));
        assert(bb == 0 <==> nd.is_phi());
        assert(bb != 0 ==> 1 <= nd.block < t.blocks.len());
    }
    assert forall|pc: u64| #[trigger] t.pc_insn.contains_key(pc) implies t.pc_insn[pc] < t.insn_block.len()
        && t.insn_block[t.pc_insn[pc] as int].0 != 0
        && (t.node(t.pc_insn[pc]).insn matches Some(i) && i.pc == pc) by {
        assert(s.pc_insn.contains_key(pc));
    }
    assert forall|r: usize| #[trigger] t.reg_table.contains_key(r) implies t.reg_table[r] < t.insn_block.len() by {
        assert(s.reg_table.contains_key(r));
    }
    assert forall|m: usize| m < s.insn_block.len() implies #[trigger] t.node(m) == s.node(m) by {
        let (ob, oi) = s.insn_block[m as int];
        assert(s.blocks[ob as int].nodes[oi as int].index == m);
    }
    if let Some(l) = s.last_insn {
        assert(t.insn_block[l as int] == (if s.insn_block[l as int].0 == b && s.insn_block[l as int].1 >= k {
            (nb, (s.insn_block[l as int].1 - k) as usize)
        } else {
            s.insn_block[l as int]
        }));
        assert(t.insn_block[l as int].0 != 0);
    }
    assert(t.last_insn is Some <==> t.current_block is Some);
    assert(t.current_block matches Some(c) ==> 1 <= c < t.blocks.len());
}

/// Merging two nodes keeps the invariant and touches only the phi block.
#[verifier::spinoff_prover]
#[verifier::rlimit(40)]
pub proof fn lemma_phi_merge_wf(s: CfgView, o: usize, n: usize)
    requires
        s.wf(),
        o < s.insn_block.len(),
        n < s.insn_block.len(),
        s.insn_block.len() < usize::MAX,
        s.blocks[0].nodes.len() < usize::MAX,
    ensures
        s.phi_merge(o, n).0.wf(),
        s.extends_phis(s.phi_merge(o, n).0),
        s.phi_merge(o, n).1 < s.phi_merge(o, n).0.insn_block.len(),
        s.phi_merge(o, n).0.insn_block.len() <= s.insn_block.len() + 1,
        s.phi_merge(o, n).0.blocks[0].nodes.len() <= s.blocks[0].nodes.len() + 1,
{
    let (b, i) = s.insn_block[o as int];
    assert(s.blocks[b as int].nodes[i as int].index == o);
    if s.node(o).is_phi() {
        let srcs = s.node(o).srcs.push(n);
        assert(forall|j: int| 0 <= j < s.node(o).srcs.len() ==> #[trigger] s.node(o).srcs[j] < s.insn_block.len());
        assert forall|j: int| 0 <= j < srcs.len() implies #[trigger] srcs[j] < s.insn_block.len() by {
            if j < s.node(o).srcs.len() {
                assert(srcs[j] == s.node(o).srcs[j]);
            }
        }
        lemma_with_srcs_wf(s, o, srcs);
        assert(b == 0);
        let t = s.phi_merge(o, n).0;
        assert forall|bb: int| 1 <= bb < s.blocks.len() implies #[trigger] t.blocks[bb] == s.blocks[bb] by {
        }
    } else {
        let srcs = seq![o, n];
        assert forall|j: int| 0 <= j < srcs.len() implies #[trigger] srcs[j] < s.insn_block.len() by {
        }
        lemma_add_phi_node_wf(s, srcs);
        let t = s.phi_merge(o, n).0;
        assert forall|bb: int| 1 <= bb < s.blocks.len() implies #[trigger] t.blocks[bb] == s.blocks[bb] by {
        }
    }
}

/// Reconciling sources keeps the invariant, touches only the phi block, and gives
/// one node for each new source.
#[verifier::spinoff_prover]
#[verifier::rlimit(40)]
pub proof fn lemma_merge_srcs_wf(s: CfgView, olds: Seq<usize>, news: Seq<usize>)
    requires
        s.wf(),
        olds.len() == news.len(),
        forall|j: int| 0 <= j < olds.len() ==> #[trigger] olds[j] < s.insn_block.len(),
        forall|j: int| 0 <= j < news.len() ==> #[trigger] news[j] < s.insn_block.len(),
        s.insn_block.len() + news.len() < usize::MAX,
        s.blocks[0].nodes.len() + news.len() < usize::MAX,
    ensures
        s.merge_srcs(olds, news).0.wf(),
        s.extends_phis(s.merge_srcs(olds, news).0),
        s.merge_srcs(olds, news).1.len() == news.len(),
        forall|j: int| 0 <= j < news.len() ==> #[trigger] s.merge_srcs(olds, news).1[j]
            < s.merge_srcs(olds, news).0.insn_block.len(),
        s.merge_srcs(olds, news).0.insn_block.len() <= s.insn_block.len() + news.len(),
        s.merge_srcs(olds, news).0.blocks[0].nodes.len() <= s.blocks[0].nodes.len() + news.len(),
    decreases news.len(),
{
    if news.len() == 0 {
        let t = s;
        assert forall|bb: int| 1 <= bb < s.blocks.len() implies #[trigger] t.blocks[bb] == s.blocks[bb] by {
        }
    } else {
        let k = news.len() - 1;
        let olds1 = olds.take(k);
        let news1 = news.drop_last();
        assert forall|j: int| 0 <= j < olds1.len() implies #[trigger] olds1[j] < s.insn_block.len() by {
            assert(olds1[j] == olds[j]);
        }
        assert forall|j: int| 0 <= j < news1.len() implies #[trigger] news1[j] < s.insn_block.len() by {
            assert(news1[j] == news[j]);
        }
        lemma_merge_srcs_wf(s, olds1, news1);
        let (s1, acc) = s.merge_srcs(olds1, news1);
        let o = olds[k];
        let n = news.last();
        if s1.equal_or_phi_includes(o, n) {
            let t = s1;
            assert forall|bb: int| 1 <= bb < s.blocks.len() implies #[trigger] t.blocks[bb] == s.blocks[bb] by {
                assert(s1.blocks[bb] == s.blocks[bb]);
            }
            assert forall|j: int| 0 <= j < news.len() implies #[trigger] acc.push(o)[j] < t.insn_block.len() by {
                if j < k {
                    assert(acc.push(o)[j] == acc[j]);
                }
            }
        } else {
            lemma_phi_merge_wf(s1, o, n);
            let (t, p) = s1.phi_merge(o, n);
            assert forall|bb: int| 1 <= bb < s.blocks.len() implies #[trigger] t.blocks[bb] == s.blocks[bb] by {
                assert(s1.blocks[bb] == s.blocks[bb]);
            }
            assert forall|m: int| 0 <= m < s.insn_block.len() implies #[trigger] t.insn_block[m] == s.insn_block[m] by {
                assert(s1.insn_block[m] == s.insn_block[m]);
            }
            assert forall|j: int| 0 <= j < news.len() implies #[trigger] acc.push(p)[j] < t.insn_block.len() by {
                if j < k {
                    assert(acc.push(p)[j] == acc[j]);
                }
            }
        }
    }
}

/// The writers that a read selects are among the table's values, and there are no
/// more of them than registers read.
#[verifier::spinoff_prover]
#[verifier::rlimit(40)]
pub proof fn lemma_lookup_srcs(table: Map<usize, usize>, regs: Seq<u32>, bound: nat)
    requires
        forall|r: usize| #[trigger] table.contains_key(r) ==> table[r] < bound,
    ensures
        lookup_srcs(table, regs).len() <= regs.len(),
        forall|j: int| 0 <= j < lookup_srcs(table, regs).len() ==> #[trigger] lookup_srcs(table, regs)[j] < bound,
    decreases regs.len(),
{
    if regs.len() > 0 {
        lemma_lookup_srcs(table, regs.drop_last(), bound);
        let rest = lookup_srcs(table, regs.drop_last());
        let r = regs.last() as usize;
        if table.contains_key(r) {
            assert forall|j: int| 0 <= j < rest.push(table[r]).len() implies #[trigger] rest.push(table[r])[j] < bound by {
                if j < rest.len() {
                    assert(rest.push(table[r])[j] == rest[j]);
                }
            }
        }
    }
}

/// After a node writes registers, each of them maps to that node, and every other
/// register keeps its writer.
#[verifier::spinoff_prover]
#[verifier::rlimit(40)]
pub proof fn lemma_record_dsts(table: Map<usize, usize>, dsts: Seq<u32>, n: usize)
    ensures
        forall|j: int| 0 <= j < dsts.len() ==> #[trigger] record_dsts(table, dsts, n).contains_key(dsts[j] as usize)
            && record_dsts(table, dsts, n)[dsts[j] as usize] == n,
        forall|r: usize| !(exists|j: int| 0 <= j < dsts.len() && dsts[j] as usize == r) ==> (
            #[trigger] record_dsts(table, dsts, n).contains_key(r) == table.contains_key(r)
            && (table.contains_key(r) ==> record_dsts(table, dsts, n)[r] == table[r])),
        forall|r: usize| #[trigger] record_dsts(table, dsts, n).contains_key(r) ==> table.contains_key(r)
            || record_dsts(table, dsts, n)[r] == n,
    decreases dsts.len(),
{
    if dsts.len() > 0 {
        let d = dsts.drop_last();
        lemma_record_dsts(table, d, n);
        let m0 = record_dsts(table, d, n);
        let m = record_dsts(table, dsts, n);
        assert(m == m0.insert(dsts.last() as usize, n));
        assert forall|j: int| 0 <= j < dsts.len() implies #[trigger] m.contains_key(dsts[j] as usize)
            && m[dsts[j] as usize] == n by {
            if j < d.len() {
                assert(d[j] == dsts[j]);
                assert(m0.contains_key(d[j] as usize));
            }
        }
        assert forall|r: usize| !(exists|j: int| 0 <= j < dsts.len() && dsts[j] as usize == r) implies (
            #[trigger] m.contains_key(r) == table.contains_key(r)
            && (table.contains_key(r) ==> m[r] == table[r])) by {
            assert(dsts[dsts.len() - 1] as usize != r);
            if exists|j: int| 0 <= j < d.len() && d[j] as usize == r {
                let j = choose|j: int| 0 <= j < d.len() && d[j] as usize == r;
                assert(dsts[j] == d[j]);
            }
            assert(m0.contains_key(r) == table.contains_key(r));
        }
    }
}

/// Placing an instruction keeps the invariant, where the split it may cause adds
/// a new edge; the program counter then maps to the placed node.
#[verifier::spinoff_prover]
#[verifier::rlimit(40)]
pub proof fn lemma_place_wf(s: CfgView, insn: InsnView)
    requires
        s.wf(),
        !s.split_repeats_edge(insn),
        s.insn_block.len() + 1 < usize::MAX,
        s.blocks.len() + 1 < usize::MAX,
    ensures
        s.place(insn).0.wf(),
        s.place(insn).1 < s.place(insn).0.insn_block.len(),
        s.place(insn).0.insn_block[s.place(insn).1 as int].0 != 0,
        s.place(insn).0.pc_insn.contains_key(insn.pc),
        s.place(insn).0.pc_insn[insn.pc] == s.place(insn).1,
        s.place(insn).0.insn_block.len() <= s.insn_block.len() + 1,
        s.place(insn).0.blocks.len() <= s.blocks.len() + 1,
        s.place(insn).0.reg_table == s.reg_table,
        s.place(insn).0.latency_buffer == s.latency_buffer,
        s.place(insn).0.last_commit_timestamp == s.last_commit_timestamp,
{
    let (t, g) = s.place(insn);
    if s.pc_insn.contains_key(insn.pc) {
        let g0 = s.pc_insn[insn.pc];
        if s.last_is_not_control() {
        } else if s.last_is_control() && !s.is_leading(g0) {
            let b = s.block_of(g0);
            let k = s.insn_block[g0 as int].1;
            lemma_split_wf(s, b, k);
            let s1 = s.split(b, k);
            let nb = s.blocks.len() as usize;
            let l = s.last_insn.unwrap();
            assert(s1.insn_block[g0 as int] == (nb, 0usize));
            assert(s1.block_of(g0) == nb);
            assert(s1.edges[s1.edges.len() - 1] == (b, nb));
            assert(s1.block_of(l) != b) by {
                if s.insn_block[l as int].0 == b {
                    assert(s.insn_block[l as int].1 >= k);
                }
            }
            assert forall|j: int, jj: int| 0 <= j < jj < t.edges.len() implies #[trigger] t.edges[j] != #[trigger] t.edges[jj] by {
                if jj == s1.edges.len() {
                    if j < s.edges.len() {
                        assert(s.edges[j].0 < s.blocks.len() && s.edges[j].1 < s.blocks.len());
                        assert(s1.edges[j] == s.edges[j]);
                    }
                } else {
                    assert(s1.edges[j] != s1.edges[jj]);
                }
            }
            assert forall|j: int| 0 <= j < t.edges.len() implies #[trigger] t.edges[j].0 < t.blocks.len()
                && t.edges[j].1 < t.blocks.len() by {
                if j < s1.edges.len() {
                    assert(s1.edges[j].0 < s1.blocks.len() && s1.edges[j].1 < s1.blocks.len());
                }
            }
            assert forall|bb: int, i: int|
                0 <= bb < t.blocks.len() && 0 <= i < t.blocks[bb].nodes.len() implies {
                    let nd = #[trigger] t.blocks[bb].nodes[i];
                    &&& nd.index < t.insn_block.len()
                    &&& t.insn_block[nd.index as int] == (bb as usize, i as usize)
                    &&& (bb == 0 <==> nd.is_phi())
                    &&& (bb == 0 ==> nd.block == 0)
                    &&& (bb != 0 ==> 1 <= nd.block < t.blocks.len())
                    &&& forall|j: int| 0 <= j < nd.srcs.len() ==> #[trigger] nd.srcs[j] < t.insn_block.len()
                } by {
                assert(t.blocks[bb].nodes[i] == s1.blocks[bb].nodes[i]);
            }
            assert(s.node(g0).insn matches Some(i) && i.pc == insn.pc);
        } else {
        }
    } else {
        if s.last_is_not_control() {
            lemma_add_insn_node_wf(s, insn, s.current_block.unwrap());
        } else {
            lemma_add_block_wf(s, s.current_block);
            let s1 = s.add_block(s.current_block);
            lemma_add_insn_node_wf(s1, insn, (s1.blocks.len() - 1) as usize);
        }
    }
}

/// The number of registers a message reads.
pub open spec fn reads_len(msg: MsgView) -> nat {
    match msg.reg {
        Some((srcs, _)) => srcs.len(),
        None => 0,
    }
}

/// Resolving the sources of an instruction node keeps the invariant and changes,
/// outside the phi block, only that node's sources.
#[verifier::spinoff_prover]
#[verifier::rlimit(40)]
pub proof fn lemma_resolve_wf(t: CfgView, g: usize, regs: Seq<u32>)
    requires
        t.wf(),
        g < t.insn_block.len(),
        t.insn_block[g as int].0 != 0,
        t.insn_block.len() + regs.len() < usize::MAX,
    ensures
        t.resolve_srcs(g, regs).wf(),
        t.resolve_srcs(g, regs).insn_block.len() <= t.insn_block.len() + regs.len(),
        t.insn_block.len() <= t.resolve_srcs(g, regs).insn_block.len(),
        t.resolve_srcs(g, regs).insn_block[g as int] == t.insn_block[g as int],
        t.resolve_srcs(g, regs).node(g).block == t.node(g).block,
        t.resolve_srcs(g, regs).node(g).insn == t.node(g).insn,
        t.resolve_srcs(g, regs).blocks.len() == t.blocks.len(),
        t.resolve_srcs(g, regs).edges == t.edges,
        t.resolve_srcs(g, regs).pc_insn == t.pc_insn,
        t.resolve_srcs(g, regs).last_insn == t.last_insn,
        t.resolve_srcs(g, regs).current_block == t.current_block,
        t.resolve_srcs(g, regs).reg_table == t.reg_table,
        t.resolve_srcs(g, regs).latency_buffer == t.latency_buffer,
        t.resolve_srcs(g, regs).last_commit_timestamp == t.last_commit_timestamp,
{
    let num = t.insn_block.len();
    lemma_lookup_srcs(t.reg_table, regs, num);
    let news = lookup_srcs(t.reg_table, regs);
    let node = t.node(g);
    let (b, i) = t.insn_block[g as int];
    assert(t.blocks[b as int].nodes[i as int].index == g);
    assert(forall|j: int| 0 <= j < node.srcs.len() ==> #[trigger] node.srcs[j] < num);
    let olds = pad_srcs(node.srcs, news);
    assert forall|j: int| 0 <= j < olds.len() implies #[trigger] olds[j] < num by {
        if j >= node.srcs.len() {
            assert(olds[j] == news[j]);
        }
    }
    let olds2 = olds.take(news.len() as int);
    assert forall|j: int| 0 <= j < olds2.len() implies #[trigger] olds2[j] < num by {
        assert(olds2[j] == olds[j]);
    }
    assert(t.blocks[0].index == 0);
    assert(t.blocks[0].nodes.len() <= num);
    lemma_merge_srcs_wf(t, olds2, news);
    let (s1, fin) = t.merge_srcs(olds2, news);
    assert(s1.blocks[b as int] == t.blocks[b as int]);
    assert(s1.node(g) == t.node(g));
    lemma_with_srcs_wf(s1, g, fin);
}

/// Parsing a message keeps the invariant, where the message does not repeat an edge.
#[verifier::spinoff_prover]
#[verifier::rlimit(40)]
pub proof fn lemma_parse_wf(s: CfgView, msg: MsgView)
    requires
        s.wf(),
        !s.split_repeats_edge(msg.insn),
        s.insn_block.len() + 1 + reads_len(msg) < usize::MAX,
        s.blocks.len() + 1 < usize::MAX,
    ensures
        s.parse(msg).wf(),
        s.parse(msg).insn_block.len() <= s.insn_block.len() + 1 + reads_len(msg),
        s.parse(msg).blocks.len() <= s.blocks.len() + 1,
{
    lemma_place_wf(s, msg.insn);
    let (s1, g) = s.place(msg.insn);
    match msg.reg {
        Some((srcs, dsts)) => {
            lemma_resolve_wf(s1, g, srcs);
            let s2 = s1.resolve_srcs(g, srcs);
            lemma_parse_tail_wf(s2, g, Some(dsts), msg.commit);
        },
        None => {
            lemma_parse_tail_wf(s1, g, None, msg.commit);
        },
    }
}

/// Recording the parsed node as the last one, and as the writer of its
/// destination registers, keeps the invariant.
#[verifier::spinoff_prover]
#[verifier::rlimit(40)]
pub proof fn lemma_parse_tail_wf(s2: CfgView, g: usize, dsts: Option<Seq<u32>>, commit: u64)
    requires
        s2.wf(),
        g < s2.insn_block.len(),
        s2.insn_block[g as int].0 != 0,
    ensures
        (CfgView {
            last_insn: Some(g),
            current_block: Some(s2.node(g).block),
            reg_table: match dsts {
                Some(d) => record_dsts(s2.reg_table, d, g),
                None => s2.reg_table,
            },
            ..s2
        }).account(commit, g).wf(),
{
    let (b, i) = s2.insn_block[g as int];
    assert(s2.blocks[b as int].nodes[i as int].index == g);
    assert(1 <= s2.node(g).block < s2.blocks.len());
    let s3 = CfgView {
        last_insn: Some(g),
        current_block: Some(s2.node(g).block),
        reg_table: match dsts {
            Some(d) => record_dsts(s2.reg_table, d, g),
            None => s2.reg_table,
        },
        ..s2
    };
    assert forall|r: usize| #[trigger] s3.reg_table.contains_key(r) implies s3.reg_table[r] < s3.insn_block.len() by {
        match dsts {
            Some(d) => {
                lemma_record_dsts(s2.reg_table, d, g);
                if s2.reg_table.contains_key(r) {
                }
            },
            None => {
                assert(s2.reg_table.contains_key(r));
            },
        }
    }
    assert(s3.wf());
    assert(s3.account(commit, g).wf());
}

/// Adding a block leaves every node where it is, unchanged.
proof fn lemma_add_block_frame(s: CfgView, last: Option<usize>)
    requires
        s.wf(),
    ensures
        forall|m: usize| m < s.insn_block.len() ==> #[trigger] s.add_block(last).node(m) == s.node(m),
{
    assert forall|m: usize| m < s.insn_block.len() implies #[trigger] s.add_block(last).node(m) == s.node(m) by {
        let (b, i) = s.insn_block[m as int];
        assert(s.blocks[b as int].nodes[i as int].index == m);
    }
}

/// Adding an instruction node leaves the other nodes unchanged.
proof fn lemma_add_insn_node_frame(s: CfgView, insn: InsnView, b: usize)
    requires
        s.wf(),
        b < s.blocks.len(),
        s.insn_block.len() < usize::MAX,
        s.blocks[b as int].nodes.len() < usize::MAX,
    ensures
        forall|m: usize| m < s.insn_block.len() ==> #[trigger] s.add_insn_node(insn, b).node(m) == s.node(m),
        s.add_insn_node(insn, b).node(s.insn_block.len() as usize).insn == Some(insn),
{
    let t = s.add_insn_node(insn, b);
    assert forall|m: usize| m < s.insn_block.len() implies #[trigger] t.node(m) == s.node(m) by {
        let (bb, i) = s.insn_block[m as int];
        assert(s.blocks[bb as int].nodes[i as int].index == m);
    }
    let pos = s.blocks[b as int].nodes.len() as usize;
    assert(t.insn_block[s.insn_block.len() as int] == (b, pos));
    assert(t.blocks[b as int].nodes[pos as int].insn == Some(insn));
}

/// Adding a phi node leaves the other nodes unchanged.
proof fn lemma_add_phi_node_frame(s: CfgView, srcs: Seq<usize>)
    requires
        s.wf(),
    ensures
        forall|m: usize| m < s.insn_block.len() ==> #[trigger] s.add_phi_node(srcs).node(m) == s.node(m),
{
    let t = s.add_phi_node(srcs);
    assert forall|m: usize| m < s.insn_block.len() implies #[trigger] t.node(m) == s.node(m) by {
        let (bb, i) = s.insn_block[m as int];
        assert(s.blocks[bb as int].nodes[i as int].index == m);
    }
}

/// Reconciling sources changes no node's instruction.
proof fn lemma_merge_srcs_frame(s: CfgView, olds: Seq<usize>, news: Seq<usize>)
    requires
        s.wf(),
        olds.len() == news.len(),
        forall|j: int| 0 <= j < olds.len() ==> #[trigger] olds[j] < s.insn_block.len(),
        forall|j: int| 0 <= j < news.len() ==> #[trigger] news[j] < s.insn_block.len(),
        s.insn_block.len() + news.len() < usize::MAX,
        s.blocks[0].nodes.len() + news.len() < usize::MAX,
    ensures
        forall|m: usize| m < s.insn_block.len() ==> #[trigger] s.merge_srcs(olds, news).0.node(m).insn
            == s.node(m).insn,
    decreases news.len(),
{
    if news.len() > 0 {
        let k = news.len() - 1;
        let olds1 = olds.take(k);
        let news1 = news.drop_last();
        assert forall|j: int| 0 <= j < olds1.len() implies #[trigger] olds1[j] < s.insn_block.len() by {
            assert(olds1[j] == olds[j]);
        }
        assert forall|j: int| 0 <= j < news1.len() implies #[trigger] news1[j] < s.insn_block.len() by {
            assert(news1[j] == news[j]);
        }
        lemma_merge_srcs_wf(s, olds1, news1);
        lemma_merge_srcs_frame(s, olds1, news1);
        let (s1, acc) = s.merge_srcs(olds1, news1);
        let o = olds[k];
        let n = news.last();
        if !s1.equal_or_phi_includes(o, n) {
            let t = s1.phi_merge(o, n).0;
            if s1.node(o).is_phi() {
                let srcs = s1.node(o).srcs.push(n);
                let (b, i) = s1.insn_block[o as int];
                assert(s1.blocks[b as int].nodes[i as int].index == o);
                assert(forall|j: int| 0 <= j < s1.node(o).srcs.len() ==> #[trigger] s1.node(o).srcs[j] < s1.insn_block.len());
                assert forall|j: int| 0 <= j < srcs.len() implies #[trigger] srcs[j] < s1.insn_block.len() by {
                    if j < s1.node(o).srcs.len() {
                        assert(srcs[j] == s1.node(o).srcs[j]);
                    }
                }
                lemma_with_srcs_wf(s1, o, srcs);
            } else {
                lemma_add_phi_node_frame(s1, seq![o, n]);
            }
            assert forall|m: usize| m < s.insn_block.len() implies #[trigger] t.node(m).insn == s.node(m).insn by {
                assert(s1.node(m).insn == s.node(m).insn);
            }
        }
    }
}

/// Placing an instruction moves no node's contents, keeps the existing edges in
/// order, and keeps the node of every program counter seen.
#[verifier::spinoff_prover]
#[verifier::rlimit(40)]
proof fn lemma_place_frame(s: CfgView, insn: InsnView)
    requires
        s.wf(),
        !s.split_repeats_edge(insn),
        s.insn_block.len() + 1 < usize::MAX,
        s.blocks.len() + 1 < usize::MAX,
    ensures
        forall|m: usize| m < s.insn_block.len() ==> #[trigger] s.place(insn).0.node(m) == s.node(m),
        s.edges.len() <= s.place(insn).0.edges.len(),
        forall|j: int| 0 <= j < s.edges.len() ==> #[trigger] s.place(insn).0.edges[j] == s.edges[j],
        forall|pc: u64| #[trigger] s.pc_insn.contains_key(pc) ==> s.place(insn).0.pc_insn.contains_key(pc)
            && s.place(insn).0.pc_insn[pc] == s.pc_insn[pc],
        s.blocks.len() <= s.place(insn).0.blocks.len(),
        s.insn_block.len() <= s.place(insn).0.insn_block.len(),
{
    let (s1, g) = s.place(insn);
    if s.pc_insn.contains_key(insn.pc) {
        if !s.last_is_not_control() && s.last_is_control() && !s.is_leading(s.pc_insn[insn.pc]) {
            let g0 = s.pc_insn[insn.pc];
            lemma_split_wf(s, s.block_of(g0), s.insn_block[g0 as int].1);
        }
    } else if s.last_is_not_control() {
        assert(s.blocks[s.current_block.unwrap() as int].index == s.current_block.unwrap());
        lemma_add_insn_node_frame(s, insn, s.current_block.unwrap());
    } else {
        lemma_add_block_wf(s, s.current_block);
        lemma_add_block_frame(s, s.current_block);
        let sb = s.add_block(s.current_block);
        lemma_add_insn_node_frame(sb, insn, (sb.blocks.len() - 1) as usize);
    }
    assert forall|pc: u64| #[trigger] s.pc_insn.contains_key(pc) implies s1.pc_insn.contains_key(pc)
        && s1.pc_insn[pc] == s.pc_insn[pc] by {
        if !s.pc_insn.contains_key(insn.pc) {
            assert(pc != insn.pc);
        }
    }
}

/// Resolving the sources of a node changes no node's instruction.
#[verifier::spinoff_prover]
#[verifier::rlimit(40)]
proof fn lemma_resolve_frame(s1: CfgView, g: usize, srcs: Seq<u32>)
    requires
        s1.wf(),
        g < s1.insn_block.len(),
        s1.insn_block[g as int].0 != 0,
        s1.insn_block.len() + srcs.len() < usize::MAX,
    ensures
        forall|m: usize| m < s1.insn_block.len() ==> #[trigger] s1.resolve_srcs(g, srcs).node(m).insn
            == s1.node(m).insn,
{
    lemma_resolve_wf(s1, g, srcs);
    let news = lookup_srcs(s1.reg_table, srcs);
    lemma_lookup_srcs(s1.reg_table, srcs, s1.insn_block.len());
    let node = s1.node(g);
    let (b, i) = s1.insn_block[g as int];
    assert(s1.blocks[b as int].nodes[i as int].index == g);
    assert(forall|j: int| 0 <= j < node.srcs.len() ==> #[trigger] node.srcs[j] < s1.insn_block.len());
    let olds = pad_srcs(node.srcs, news);
    assert forall|j: int| 0 <= j < olds.len() implies #[trigger] olds[j] < s1.insn_block.len() by {
        if j >= node.srcs.len() {
            assert(olds[j] == news[j]);
        }
    }
    let olds2 = olds.take(news.len() as int);
    assert forall|j: int| 0 <= j < olds2.len() implies #[trigger] olds2[j] < s1.insn_block.len() by {
        assert(olds2[j] == olds[j]);
    }
    assert(s1.blocks[0].index == 0);
    lemma_merge_srcs_wf(s1, olds2, news);
    lemma_merge_srcs_frame(s1, olds2, news);
    let (s2, fin) = s1.merge_srcs(olds2, news);
    lemma_with_srcs_wf(s2, g, fin);
    assert forall|m: usize| m < s1.insn_block.len() implies #[trigger] s1.resolve_srcs(g, srcs).node(m).insn
        == s1.node(m).insn by {
        assert(s2.node(m).insn == s1.node(m).insn);
        if m != g {
            assert(s2.with_srcs(g, fin).node(m) == s2.node(m));
        }
    }
}

/// What parsing a message keeps of the state before it: the existing edges stay, in
/// order; no block or node disappears; every existing node keeps its instruction;
/// and every program counter seen keeps its node.
#[verifier::spinoff_prover]
#[verifier::rlimit(40)]
pub proof fn lemma_parse_keeps_history(s: CfgView, msg: MsgView)
    requires
        s.wf(),
        !s.split_repeats_edge(msg.insn),
        s.insn_block.len() + 1 + reads_len(msg) < usize::MAX,
        s.blocks.len() + 1 < usize::MAX,
    ensures
        s.edges.len() <= s.parse(msg).edges.len(),
        forall|j: int| 0 <= j < s.edges.len() ==> #[trigger] s.parse(msg).edges[j] == s.edges[j],
        s.blocks.len() <= s.parse(msg).blocks.len(),
        s.insn_block.len() <= s.parse(msg).insn_block.len(),
        forall|m: usize| m < s.insn_block.len() ==> #[trigger] s.parse(msg).node(m).insn == s.node(m).insn,
        forall|pc: u64| #[trigger] s.pc_insn.contains_key(pc) ==> s.parse(msg).pc_insn.contains_key(pc)
            && s.parse(msg).pc_insn[pc] == s.pc_insn[pc],
{
    lemma_place_wf(s, msg.insn);
    lemma_place_frame(s, msg.insn);
    let (s1, g) = s.place(msg.insn);
    let t = s.parse(msg);
    match msg.reg {
        Some((srcs, _)) => {
            lemma_resolve_wf(s1, g, srcs);
            lemma_resolve_frame(s1, g, srcs);
            let s2 = s1.resolve_srcs(g, srcs);
            assert(t.blocks == s2.blocks && t.insn_block == s2.insn_block && t.edges == s2.edges && t.pc_insn == s2.pc_insn);
            assert forall|m: usize| m < s.insn_block.len() implies #[trigger] t.node(m).insn == s.node(m).insn by {
                assert(s2.node(m).insn == s1.node(m).insn);
                assert(s1.node(m) == s.node(m));
            }
        },
        None => {
            assert(t.blocks == s1.blocks && t.insn_block == s1.insn_block && t.edges == s1.edges && t.pc_insn == s1.pc_insn);
            assert forall|m: usize| m < s.insn_block.len() implies #[trigger] t.node(m).insn == s.node(m).insn by {
                assert(s1.node(m) == s.node(m));
            }
        },
    }
}

/// After a message, its program counter maps to the last node, which holds an
/// instruction with that program counter; an unseen program counter gets a new
/// node, numbered after all the existing ones.
pub proof fn lemma_parse_records_pc(s: CfgView, msg: MsgView)
    requires
        s.wf(),
        !s.split_repeats_edge(msg.insn),
        s.insn_block.len() + 1 + reads_len(msg) < usize::MAX,
        s.blocks.len() + 1 < usize::MAX,
    ensures
        s.parse(msg).pc_insn.contains_key(msg.insn.pc),
        s.parse(msg).last_insn == Some(s.parse(msg).pc_insn[msg.insn.pc]),
        s.parse(msg).node(s.parse(msg).pc_insn[msg.insn.pc]).insn matches Some(i) && i.pc == msg.insn.pc,
        !s.pc_insn.contains_key(msg.insn.pc) ==> s.parse(msg).pc_insn[msg.insn.pc] == s.insn_block.len()
            && s.parse(msg).insn_block.len() > s.insn_block.len(),
        s.pc_insn.contains_key(msg.insn.pc) ==> s.parse(msg).pc_insn[msg.insn.pc] == s.pc_insn[msg.insn.pc],
{
    lemma_place_wf(s, msg.insn);
    let (s1, g) = s.place(msg.insn);
    let s2 = match msg.reg {
        Some((srcs, _)) => s1.resolve_srcs(g, srcs),
        None => s1,
    };
    match msg.reg {
        Some((srcs, _)) => {
            lemma_resolve_wf(s1, g, srcs);
        },
        None => {},
    }
    assert(s2.pc_insn == s1.pc_insn);
    assert(s2.node(g).insn == s1.node(g).insn);
    assert(s1.node(s1.pc_insn[msg.insn.pc]).insn matches Some(i) && i.pc == msg.insn.pc);
    let t = s.parse(msg);
    assert(t.pc_insn == s2.pc_insn);
    assert(t.insn_block == s2.insn_block);
    assert(t.blocks == s2.blocks);
    assert(t.node(g) == s2.node(g));
    assert(t.last_insn == Some(g));
}

/// After a message, each register it writes has the last node as its writer, and
/// every other register keeps its writer.
pub proof fn lemma_parse_records_writes(s: CfgView, msg: MsgView)
    requires
        s.wf(),
        !s.split_repeats_edge(msg.insn),
        s.insn_block.len() + 1 + reads_len(msg) < usize::MAX,
        s.blocks.len() + 1 < usize::MAX,
    ensures
        msg.reg matches Some((_, dsts)) ==> forall|j: int| 0 <= j < dsts.len() ==>
            #[trigger] s.parse(msg).reg_table.contains_key(dsts[j] as usize)
            && Some(s.parse(msg).reg_table[dsts[j] as usize]) == s.parse(msg).last_insn,
        forall|r: usize| !(msg.reg matches Some((_, dsts)) && exists|j: int| 0 <= j < dsts.len() && dsts[j] as usize == r)
            ==> (#[trigger] s.parse(msg).reg_table.contains_key(r) == s.reg_table.contains_key(r)
            && (s.reg_table.contains_key(r) ==> s.parse(msg).reg_table[r] == s.reg_table[r])),
{
    lemma_place_wf(s, msg.insn);
    let (s1, g) = s.place(msg.insn);
    match msg.reg {
        Some((srcs, dsts)) => {
            lemma_resolve_wf(s1, g, srcs);
            let s2 = s1.resolve_srcs(g, srcs);
            lemma_record_dsts(s2.reg_table, dsts, g);
            let t = s.parse(msg);
            assert(t.reg_table == record_dsts(s2.reg_table, dsts, g));
            assert(t.last_insn == Some(g));
            assert(s2.reg_table == s.reg_table);
            assert forall|j: int| 0 <= j < dsts.len() implies #[trigger] t.reg_table.contains_key(dsts[j] as usize)
                && Some(t.reg_table[dsts[j] as usize]) == t.last_insn by {
                assert(record_dsts(s2.reg_table, dsts, g).contains_key(dsts[j] as usize));
            }
        },
        None => {
            let t = s.parse(msg);
            assert(t.reg_table == s.reg_table);
        },
    }
}

/// Whether node `x` is node `n`, or a phi node that merges `n`.
pub open spec fn is_or_merges(s: CfgView, x: usize, n: usize) -> bool {
    x == n || (s.node(x).is_phi() && s.node(x).srcs.contains(n))
}

/// Merging two nodes keeps every node's instruction and every source of every node.
proof fn lemma_phi_merge_grows(s: CfgView, o: usize, n: usize)
    requires
        s.wf(),
        o < s.insn_block.len(),
        n < s.insn_block.len(),
        s.insn_block.len() < usize::MAX,
        s.blocks[0].nodes.len() < usize::MAX,
    ensures
        forall|x: usize| x < s.insn_block.len() ==> #[trigger] s.phi_merge(o, n).0.node(x).insn == s.node(x).insn,
        forall|x: usize, y: usize| x < s.insn_block.len() && #[trigger] s.node(x).srcs.contains(y)
            ==> #[trigger] s.phi_merge(o, n).0.node(x).srcs.contains(y),
        is_or_merges(s.phi_merge(o, n).0, s.phi_merge(o, n).1, n),
{
    let (t, p) = s.phi_merge(o, n);
    let (b, i) = s.insn_block[o as int];
    assert(s.blocks[b as int].nodes[i as int].index == o);
    if s.node(o).is_phi() {
        let srcs = s.node(o).srcs.push(n);
        assert(forall|j: int| 0 <= j < s.node(o).srcs.len() ==> #[trigger] s.node(o).srcs[j] < s.insn_block.len());
        assert forall|j: int| 0 <= j < srcs.len() implies #[trigger] srcs[j] < s.insn_block.len() by {
            if j < s.node(o).srcs.len() {
                assert(srcs[j] == s.node(o).srcs[j]);
            }
        }
        lemma_with_srcs_wf(s, o, srcs);
        assert(t.node(o).srcs == srcs);
        assert(srcs[srcs.len() - 1] == n);
        assert forall|x: usize, y: usize| x < s.insn_block.len() && #[trigger] s.node(x).srcs.contains(y)
            implies #[trigger] t.node(x).srcs.contains(y) by {
            if x == o {
                let j = choose|j: int| 0 <= j < s.node(x).srcs.len() && s.node(x).srcs[j] == y;
                assert(srcs[j] == y);
            }
        }
    } else {
        lemma_add_phi_node_frame(s, seq![o, n]);
        lemma_add_phi_node_wf(s, seq![o, n]);
        let pos = s.blocks[0].nodes.len() as usize;
        assert(t.insn_block[s.insn_block.len() as int] == (0usize, pos));
        assert(t.node(p).srcs == seq![o, n]);
        assert(t.node(p).srcs[1] == n);
        assert(t.node(p).is_phi());
    }
}

/// Reconciling sources gives, at each position, the new source or a phi node that
/// merges it.
#[verifier::spinoff_prover]
#[verifier::rlimit(40)]
pub proof fn lemma_merge_srcs_sources(s: CfgView, olds: Seq<usize>, news: Seq<usize>)
    requires
        s.wf(),
        olds.len() == news.len(),
        forall|j: int| 0 <= j < olds.len() ==> #[trigger] olds[j] < s.insn_block.len(),
        forall|j: int| 0 <= j < news.len() ==> #[trigger] news[j] < s.insn_block.len(),
        s.insn_block.len() + news.len() < usize::MAX,
        s.blocks[0].nodes.len() + news.len() < usize::MAX,
    ensures
        forall|j: int| 0 <= j < news.len() ==> is_or_merges(
            s.merge_srcs(olds, news).0,
            #[trigger] s.merge_srcs(olds, news).1[j],
            news[j],
        ),
    decreases news.len(),
{
    if news.len() > 0 {
        let k = news.len() - 1;
        let olds1 = olds.take(k);
        let news1 = news.drop_last();
        assert forall|j: int| 0 <= j < olds1.len() implies #[trigger] olds1[j] < s.insn_block.len() by {
            assert(olds1[j] == olds[j]);
        }
        assert forall|j: int| 0 <= j < news1.len() implies #[trigger] news1[j] < s.insn_block.len() by {
            assert(news1[j] == news[j]);
        }
        lemma_merge_srcs_wf(s, olds1, news1);
        lemma_merge_srcs_sources(s, olds1, news1);
        let (s1, acc) = s.merge_srcs(olds1, news1);
        let o = olds[k];
        let n = news.last();
        assert(forall|j: int| 0 <= j < news1.len() ==> #[trigger] acc[j] < s1.insn_block.len());
        if s1.equal_or_phi_includes(o, n) {
            assert forall|j: int| 0 <= j < news.len() implies is_or_merges(s1, #[trigger] acc.push(o)[j], news[j]) by {
                if j < k {
                    assert(acc.push(o)[j] == acc[j]);
                    assert(news1[j] == news[j]);
                }
            }
        } else {
            assert(s1.blocks[0].index == 0);
            lemma_phi_merge_grows(s1, o, n);
            let (t, p) = s1.phi_merge(o, n);
            assert forall|j: int| 0 <= j < news.len() implies is_or_merges(t, #[trigger] acc.push(p)[j], news[j]) by {
                if j < k {
                    assert(acc.push(p)[j] == acc[j]);
                    assert(news1[j] == news[j]);
                    assert(is_or_merges(s1, acc[j], news1[j]));
                    let x = acc[j];
                    if x != news[j] {
                        assert(s1.node(x).srcs.contains(news[j]));
                        assert(t.node(x).srcs.contains(news[j]));
                        assert(t.node(x).insn == s1.node(x).insn);
                    }
                }
            }
        }
    }
}

/// After a message that reads registers, the node's source at each position is the
/// current writer of the corresponding register read (registers without a writer
/// skipped), or a phi node that merges that writer.
#[verifier::spinoff_prover]
#[verifier::rlimit(40)]
pub proof fn lemma_parse_links_sources(s: CfgView, msg: MsgView)
    requires
        s.wf(),
        !s.split_repeats_edge(msg.insn),
        s.insn_block.len() + 1 + reads_len(msg) < usize::MAX,
        s.blocks.len() + 1 < usize::MAX,
    ensures
        msg.reg matches Some((srcs, _)) ==> {
            let t = s.parse(msg);
            let g = t.last_insn.unwrap();
            let news = lookup_srcs(s.reg_table, srcs);
            &&& t.node(g).srcs.len() == news.len()
            &&& forall|j: int| 0 <= j < news.len() ==> is_or_merges(t, #[trigger] t.node(g).srcs[j], news[j])
        },
{
    lemma_place_wf(s, msg.insn);
    let (s1, g) = s.place(msg.insn);
    match msg.reg {
        Some((srcs, _)) => {
            lemma_resolve_wf(s1, g, srcs);
            let news = lookup_srcs(s1.reg_table, srcs);
            lemma_lookup_srcs(s1.reg_table, srcs, s1.insn_block.len());
            let node = s1.node(g);
            let (b, i) = s1.insn_block[g as int];
            assert(s1.blocks[b as int].nodes[i as int].index == g);
            assert(forall|j: int| 0 <= j < node.srcs.len() ==> #[trigger] node.srcs[j] < s1.insn_block.len());
            let olds = pad_srcs(node.srcs, news);
            assert forall|j: int| 0 <= j < olds.len() implies #[trigger] olds[j] < s1.insn_block.len() by {
                if j >= node.srcs.len() {
                    assert(olds[j] == news[j]);
                }
            }
            let olds2 = olds.take(news.len() as int);
            assert forall|j: int| 0 <= j < olds2.len() implies #[trigger] olds2[j] < s1.insn_block.len() by {
                assert(olds2[j] == olds[j]);
            }
            assert(s1.blocks[0].index == 0);
            lemma_merge_srcs_wf(s1, olds2, news);
            lemma_merge_srcs_sources(s1, olds2, news);
            let (s2, fin) = s1.merge_srcs(olds2, news);
            assert(s2.insn_block[g as int] == s1.insn_block[g as int]);
            assert(s2.blocks[b as int] == s1.blocks[b as int]);
            lemma_with_srcs_wf(s2, g, fin);
            let s3 = s2.with_srcs(g, fin);
            let t = s.parse(msg);
            assert(t.blocks == s3.blocks && t.insn_block == s3.insn_block);
            assert(t.last_insn == Some(g));
            assert(t.node(g).srcs == fin);
            assert forall|j: int| 0 <= j < news.len() implies is_or_merges(t, #[trigger] t.node(g).srcs[j], news[j]) by {
                let x = fin[j];
                assert(is_or_merges(s2, x, news[j]));
                if x != news[j] {
                    assert(s2.node(x).is_phi());
                    assert(x != g);
                    assert(x < s2.insn_block.len());
                    assert(s3.node(x) == s2.node(x));
                }
            }
        },
        None => {},
    }
}

/// The abstract values of a sequence of messages.
pub open spec fn msg_views(msgs: Seq<UtMsg>) -> Seq<MsgView> {
    msgs.map_values(|m: UtMsg| msg_view(m))
}

/// The number of registers a sequence of messages reads.
pub open spec fn total_reads(msgs: Seq<MsgView>) -> nat
    decreases msgs.len(),
{
    if msgs.len() == 0 {
        0
    } else {
        total_reads(msgs.drop_last()) + reads_len(msgs.last())
    }
}

/// The state after a sequence of messages, parsed in order; the error of the first
/// message whose split would repeat an edge, where there is one.
pub open spec fn parse_all(s: CfgView, msgs: Seq<MsgView>) -> Result<CfgView, Error>
    decreases msgs.len(),
{
    if msgs.len() == 0 {
        Ok(s)
    } else {
        match parse_all(s, msgs.drop_last()) {
            Ok(t) => if t.split_repeats_edge(msgs.last().insn) {
                Err(t.repeated_edge_error(msgs.last().insn))
            } else {
                Ok(t.parse(msgs.last()))
            },
            Err(e) => Err(e),
        }
    }
}

/// Parsing a sequence of messages keeps the invariant, and adds at most one block
/// per message and one node per message and register read.
pub proof fn lemma_parse_all_wf(s: CfgView, msgs: Seq<MsgView>)
    requires
        s.wf(),
        s.insn_block.len() + msgs.len() + total_reads(msgs) < usize::MAX,
        s.blocks.len() + msgs.len() < usize::MAX,
    ensures
        parse_all(s, msgs) matches Ok(t) ==> t.wf() && t.insn_block.len() <= s.insn_block.len() + msgs.len()
            + total_reads(msgs) && t.blocks.len() <= s.blocks.len() + msgs.len(),
    decreases msgs.len(),
{
    if msgs.len() > 0 {
        let d = msgs.drop_last();
        lemma_parse_all_wf(s, d);
        match parse_all(s, d) {
            Ok(t) => {
                if !t.split_repeats_edge(msgs.last().insn) {
                    lemma_parse_wf(t, msgs.last());
                }
            },
            Err(_) => {},
        }
    }
}

/// The reads of a prefix one message longer add that message's reads, and never
/// exceed the reads of the whole sequence.
pub proof fn lemma_total_reads_prefix(msgs: Seq<MsgView>, i: int)
    requires
        0 <= i < msgs.len(),
    ensures
        total_reads(msgs.take(i + 1)) == total_reads(msgs.take(i)) + reads_len(msgs[i]),
        total_reads(msgs.take(i + 1)) <= total_reads(msgs),
    decreases msgs.len() - i,
{
    assert(msgs.take(i + 1).drop_last() =~= msgs.take(i));
    if i + 1 < msgs.len() {
        lemma_total_reads_prefix(msgs, i + 1);
    } else {
        assert(msgs.take(i + 1) =~= msgs);
    }
}

/// Once a prefix of the messages fails, the whole sequence fails with its error.
pub proof fn lemma_parse_all_err(s: CfgView, msgs: Seq<MsgView>, i: int)
    requires
        0 <= i <= msgs.len(),
        parse_all(s, msgs.take(i)) is Err,
    ensures
        parse_all(s, msgs) == parse_all(s, msgs.take(i)),
    decreases msgs.len() - i,
{
    if i == msgs.len() {
        assert(msgs.take(i) =~= msgs);
    } else {
        assert(msgs.take(i + 1).drop_last() =~= msgs.take(i));
        lemma_parse_all_err(s, msgs, i + 1);
    }
}


impl CfgView {
    /// Every instruction node is the node recorded for its program counter, so that
    /// no two instruction nodes share one; and every register's last writer is an
    /// instruction node.
    pub open spec fn tracks_insns(self) -> bool {
        &&& forall|n: usize| #![trigger self.node(n)]
            n < self.num_nodes() && !self.node(n).is_phi() ==> self.pc_insn.contains_key(self.node(n).insn.unwrap().pc)
                && self.pc_insn[self.node(n).insn.unwrap().pc] == n
        &&& forall|r: usize| #[trigger] self.reg_table.contains_key(r) ==> !self.node(self.reg_table[r]).is_phi()
    }
}

/// Placing an instruction adds a node only for an unseen program counter: the
/// instruction's node, numbered after the existing ones.
proof fn lemma_place_nodes(s: CfgView, insn: InsnView)
    requires
        s.wf(),
        !s.split_repeats_edge(insn),
        s.insn_block.len() + 1 < usize::MAX,
        s.blocks.len() + 1 < usize::MAX,
    ensures
        s.pc_insn.contains_key(insn.pc) ==> s.place(insn).0.insn_block.len() == s.insn_block.len(),
        !s.pc_insn.contains_key(insn.pc) ==> s.place(insn).0.insn_block.len() == s.insn_block.len() + 1
            && s.place(insn).1 == s.insn_block.len()
            && s.place(insn).0.node(s.insn_block.len() as usize).insn == Some(insn)
            && s.place(insn).0.node(s.insn_block.len() as usize).srcs == Seq::<usize>::empty(),
{
    let n = s.insn_block.len() as usize;
    if s.pc_insn.contains_key(insn.pc) {
        if !s.last_is_not_control() && s.last_is_control() && !s.is_leading(s.pc_insn[insn.pc]) {
            let g0 = s.pc_insn[insn.pc];
            lemma_split_wf(s, s.block_of(g0), s.insn_block[g0 as int].1);
        }
    } else {
        let s0 = if s.last_is_not_control() { s } else { s.add_block(s.current_block) };
        let b = if s.last_is_not_control() { s.current_block.unwrap() } else { (s0.blocks.len() - 1) as usize };
        assert(s.place(insn).0 == s0.add_insn_node(insn, b));
        assert(b < s0.blocks.len());
        let t = s0.add_insn_node(insn, b);
        assert(t.insn_block[n as int] == (b, s0.blocks[b as int].nodes.len() as usize));
        assert(t.blocks[b as int].nodes == s0.blocks[b as int].nodes.push(
            NodeView { block: s0.blocks[b as int].index, index: n, insn: Some(insn), srcs: Seq::empty() },
        ));
    }
}

/// Resolving the sources of a node adds phi nodes only.
proof fn lemma_resolve_adds_phis(t: CfgView, g: usize, regs: Seq<u32>)
    requires
        t.wf(),
        g < t.insn_block.len(),
        t.insn_block[g as int].0 != 0,
        t.insn_block.len() + regs.len() < usize::MAX,
    ensures
        forall|m: usize| t.insn_block.len() <= m < t.resolve_srcs(g, regs).insn_block.len()
            ==> #[trigger] t.resolve_srcs(g, regs).node(m).is_phi(),
        forall|m: int| 0 <= m < t.insn_block.len() ==> #[trigger] t.resolve_srcs(g, regs).insn_block[m]
            == t.insn_block[m],
{
    lemma_resolve_wf(t, g, regs);
    let num = t.insn_block.len();
    lemma_lookup_srcs(t.reg_table, regs, num);
    let news = lookup_srcs(t.reg_table, regs);
    let node = t.node(g);
    let (b, i) = t.insn_block[g as int];
    assert(t.blocks[b as int].nodes[i as int].index == g);
    assert(forall|j: int| 0 <= j < node.srcs.len() ==> #[trigger] node.srcs[j] < num);
    let olds = pad_srcs(node.srcs, news);
    assert forall|j: int| 0 <= j < olds.len() implies #[trigger] olds[j] < num by {
        if j >= node.srcs.len() {
            assert(olds[j] == news[j]);
        }
    }
    let olds2 = olds.take(news.len() as int);
    assert forall|j: int| 0 <= j < olds2.len() implies #[trigger] olds2[j] < num by {
        assert(olds2[j] == olds[j]);
    }
    assert(t.blocks[0].index == 0);
    assert(t.blocks[0].nodes.len() <= num);
    lemma_merge_srcs_wf(t, olds2, news);
    let (s1, fin) = t.merge_srcs(olds2, news);
    let r = t.resolve_srcs(g, regs);
    assert(r == s1.with_srcs(g, fin));
    lemma_with_srcs_wf(s1, g, fin);
    assert forall|m: int| 0 <= m < t.insn_block.len() implies #[trigger] r.insn_block[m] == t.insn_block[m] by {
        assert(s1.insn_block[m] == t.insn_block[m]);
    }
    assert forall|m: usize| t.insn_block.len() <= m < r.insn_block.len() implies #[trigger] r.node(m).is_phi() by {
        let (bm, im) = r.insn_block[m as int];
        assert(r.blocks[bm as int].nodes[im as int].index == m);
        if bm != 0 {
            assert(s1.blocks[bm as int] == t.blocks[bm as int]);
            assert(t.blocks[bm as int].nodes[im as int].index < num);
            if bm == b {
                assert(s1.blocks[b as int].nodes[i as int].index == g);
                assert(r.blocks[bm as int].nodes[im as int].index == s1.blocks[bm as int].nodes[im as int].index);
            } else {
                assert(r.blocks[bm as int] == s1.blocks[bm as int]);
            }
        }
    }
}

/// One instruction node per program counter: parsing a message keeps every
/// instruction node the node of its program counter, and every register's writer an
/// instruction node. The instruction nodes after the message are those before it,
/// and, where its program counter is unseen, one more: the next node, which holds
/// the message's instruction.
#[verifier::spinoff_prover]
#[verifier::rlimit(40)]
pub proof fn lemma_parse_tracks_insns(s: CfgView, msg: MsgView)
    requires
        s.wf(),
        s.tracks_insns(),
        !s.split_repeats_edge(msg.insn),
        s.insn_block.len() + 1 + reads_len(msg) < usize::MAX,
        s.blocks.len() + 1 < usize::MAX,
    ensures
        s.parse(msg).tracks_insns(),
        forall|m: usize| m < s.parse(msg).num_nodes() && !(#[trigger] s.parse(msg).node(m)).is_phi() ==> (m
            < s.num_nodes() && !s.node(m).is_phi()) || (m == s.num_nodes() && !s.pc_insn.contains_key(msg.insn.pc)
            && s.parse(msg).node(m).insn == Some(msg.insn)),
        !s.pc_insn.contains_key(msg.insn.pc) ==> s.num_nodes() < s.parse(msg).num_nodes() && s.parse(msg).node(
            s.num_nodes() as usize,
        ).insn == Some(msg.insn),
{
    lemma_place_wf(s, msg.insn);
    lemma_place_frame(s, msg.insn);
    lemma_place_nodes(s, msg.insn);
    lemma_parse_keeps_history(s, msg);
    lemma_parse_records_pc(s, msg);
    lemma_parse_records_writes(s, msg);
    let (s1, g) = s.place(msg.insn);
    let t = s.parse(msg);
    let s2 = match msg.reg {
        Some((srcs, _)) => s1.resolve_srcs(g, srcs),
        None => s1,
    };
    match msg.reg {
        Some((srcs, _)) => {
            lemma_resolve_wf(s1, g, srcs);
            lemma_resolve_frame(s1, g, srcs);
            lemma_resolve_adds_phis(s1, g, srcs);
        },
        None => {},
    }
    assert(t.blocks == s2.blocks && t.insn_block == s2.insn_block);
    assert forall|m: usize| m < t.num_nodes() && !(#[trigger] t.node(m)).is_phi() implies (m < s.num_nodes()
        && !s.node(m).is_phi()) || (m == s.num_nodes() && !s.pc_insn.contains_key(msg.insn.pc) && t.node(m).insn
        == Some(msg.insn)) by {
        assert(t.node(m) == s2.node(m));
        if m < s1.insn_block.len() {
            assert(s2.node(m).insn == s1.node(m).insn);
            if m < s.num_nodes() {
                assert(s1.node(m) == s.node(m));
            }
        }
    }
    if !s.pc_insn.contains_key(msg.insn.pc) {
        let n = s.num_nodes() as usize;
        assert(t.node(n) == s2.node(n));
        assert(s2.node(n).insn == s1.node(n).insn);
    }
    assert forall|n: usize| #![trigger t.node(n)] n < t.num_nodes() && !t.node(n).is_phi() implies t.pc_insn.contains_key(
        t.node(n).insn.unwrap().pc) && t.pc_insn[t.node(n).insn.unwrap().pc] == n by {
        if n < s.num_nodes() {
            assert(t.node(n).insn == s.node(n).insn);
            assert(s.pc_insn.contains_key(s.node(n).insn.unwrap().pc));
        }
    }
    assert forall|r: usize| #[trigger] t.reg_table.contains_key(r) implies !t.node(t.reg_table[r]).is_phi() by {
        if msg.reg matches Some((_, dsts)) && exists|j: int| 0 <= j < dsts.len() && dsts[j] as usize == r {
            let dsts = msg.reg.unwrap().1;
            let j = choose|j: int| 0 <= j < dsts.len() && dsts[j] as usize == r;
            assert(t.reg_table.contains_key(dsts[j] as usize));
        } else {
            assert(s.reg_table.contains_key(r));
            let w = s.reg_table[r];
            assert(t.reg_table[r] == w);
            assert(t.node(w).insn == s.node(w).insn);
        }
    }
}

/// A message that reads and writes no register adds no phi node, and leaves every
/// node's sources and every register's writer as they were.
#[verifier::spinoff_prover]
#[verifier::rlimit(40)]
pub proof fn lemma_parse_without_regs(s: CfgView, msg: MsgView)
    requires
        s.wf(),
        !s.split_repeats_edge(msg.insn),
        s.insn_block.len() + 1 < usize::MAX,
        s.blocks.len() + 1 < usize::MAX,
        msg.reg is None,
    ensures
        forall|m: usize| s.num_nodes() <= m < s.parse(msg).num_nodes() ==> !(#[trigger] s.parse(msg).node(m)).is_phi(),
        forall|m: usize| m < s.num_nodes() ==> #[trigger] s.parse(msg).node(m).srcs == s.node(m).srcs,
        s.parse(msg).reg_table == s.reg_table,
{
    lemma_place_wf(s, msg.insn);
    lemma_place_frame(s, msg.insn);
    lemma_place_nodes(s, msg.insn);
    let (s1, g) = s.place(msg.insn);
    let t = s.parse(msg);
    assert(t.blocks == s1.blocks && t.insn_block == s1.insn_block);
    assert forall|m: usize| s.num_nodes() <= m < t.num_nodes() implies !(#[trigger] t.node(m)).is_phi() by {
        assert(t.node(m) == s1.node(m));
    }
    assert forall|m: usize| m < s.num_nodes() implies #[trigger] t.node(m).srcs == s.node(m).srcs by {
        assert(t.node(m) == s1.node(m));
    }
}

/// Parsing a message records its program counter, and no other, in the map from
/// program counters to nodes, against the node that it makes the last one.
proof fn lemma_parse_pc_map(s: CfgView, msg: MsgView)
    requires
        s.wf(),
        !s.split_repeats_edge(msg.insn),
        s.insn_block.len() + 1 + reads_len(msg) < usize::MAX,
        s.blocks.len() + 1 < usize::MAX,
    ensures
        s.parse(msg).pc_insn == s.pc_insn.insert(msg.insn.pc, s.parse(msg).last_insn.unwrap()),
{
    lemma_place_wf(s, msg.insn);
    let (s1, g) = s.place(msg.insn);
    match msg.reg {
        Some((srcs, _)) => {
            lemma_resolve_wf(s1, g, srcs);
        },
        None => {},
    }
    let t = s.parse(msg);
    assert(t.pc_insn == s1.pc_insn);
    assert(t.last_insn == Some(g));
    if s.pc_insn.contains_key(msg.insn.pc) {
        assert(s1.pc_insn == s.pc_insn);
        assert(s.pc_insn.insert(msg.insn.pc, g) =~= s.pc_insn);
    }
}

/// The instruction of the first message with program counter `pc`, where there is
/// one.
pub open spec fn first_insn(msgs: Seq<MsgView>, pc: u64) -> Option<InsnView>
    decreases msgs.len(),
{
    if msgs.len() == 0 {
        None
    } else {
        match first_insn(msgs.drop_last(), pc) {
            Some(i) => Some(i),
            None => if msgs.last().insn.pc == pc {
                Some(msgs.last().insn)
            } else {
                None
            },
        }
    }
}

/// After a sequence of messages parsed from the start: no two instruction nodes
/// share a program counter; a program counter has a node exactly where a message
/// has it, and that node holds the instruction of the first message with it; there
/// is no last instruction before any message, and after them it is the node of the
/// last message's program counter.
#[verifier::spinoff_prover]
#[verifier::rlimit(40)]
pub proof fn lemma_parse_all_insns(msgs: Seq<MsgView>)
    requires
        msgs.len() + total_reads(msgs) < usize::MAX,
        1 + msgs.len() < usize::MAX,
    ensures
        parse_all(CfgView::initial(), msgs) matches Ok(t) ==> {
            &&& t.wf()
            &&& t.tracks_insns()
            &&& forall|pc: u64| #[trigger] t.pc_insn.contains_key(pc) <==> first_insn(msgs, pc) is Some
            &&& forall|pc: u64| #[trigger] t.pc_insn.contains_key(pc) ==> t.node(t.pc_insn[pc]).insn == first_insn(
                msgs,
                pc,
            )
            &&& msgs.len() == 0 ==> t.last_insn is None
            &&& msgs.len() > 0 ==> t.last_insn == Some(t.pc_insn[msgs.last().insn.pc])
        },
    decreases msgs.len(),
{
    let s = CfgView::initial();
    assert(s.wf());
    if msgs.len() > 0 {
        let d = msgs.drop_last();
        let m = msgs.last();
        assert(total_reads(msgs) == total_reads(d) + reads_len(m));
        lemma_parse_all_insns(d);
        lemma_parse_all_wf(s, d);
        match parse_all(s, d) {
            Ok(u) => {
                if !u.split_repeats_edge(m.insn) {
                    let t = u.parse(m);
                    assert(parse_all(s, msgs) == Ok::<CfgView, Error>(t));
                    lemma_parse_wf(u, m);
                    lemma_parse_tracks_insns(u, m);
                    lemma_parse_keeps_history(u, m);
                    lemma_parse_records_pc(u, m);
                    lemma_parse_pc_map(u, m);
                    assert forall|pc: u64| #[trigger] t.pc_insn.contains_key(pc) <==> first_insn(msgs, pc) is Some by {
                        if pc != m.insn.pc {
                            assert(t.pc_insn.contains_key(pc) == u.pc_insn.contains_key(pc));
                        }
                    }
                    assert forall|pc: u64| #[trigger] t.pc_insn.contains_key(pc) implies t.node(t.pc_insn[pc]).insn
                        == first_insn(msgs, pc) by {
                        if u.pc_insn.contains_key(pc) {
                            assert(u.pc_insn[pc] < u.insn_block.len());
                            assert(t.pc_insn[pc] == u.pc_insn[pc]);
                            assert(t.node(u.pc_insn[pc]).insn == u.node(u.pc_insn[pc]).insn);
                        } else {
                            assert(pc == m.insn.pc);
                            assert(t.pc_insn[pc] == u.num_nodes());
                        }
                    }
                }
            },
            Err(_) => {},
        }
    }
}

/// Whether the last instruction parsed transfers control, in terms of the messages:
/// it does exactly where there is a message and the first message with the last
/// message's program counter holds a control-transfer instruction; it does not
/// exactly where there is a message and that instruction is no control transfer.
pub proof fn lemma_parse_all_last_control(msgs: Seq<MsgView>)
    requires
        msgs.len() + total_reads(msgs) < usize::MAX,
        1 + msgs.len() < usize::MAX,
    ensures
        parse_all(CfgView::initial(), msgs) matches Ok(t) ==> {
            &&& t.last_is_control() == (msgs.len() > 0 && first_insn(msgs, msgs.last().insn.pc).unwrap().is_control())
            &&& t.last_is_not_control() == (msgs.len() > 0 && !first_insn(
                msgs,
                msgs.last().insn.pc,
            ).unwrap().is_control())
            &&& !(t.last_is_control() && t.last_is_not_control())
        },
{
    lemma_parse_all_insns(msgs);
    if msgs.len() > 0 {
        match parse_all(CfgView::initial(), msgs) {
            Ok(t) => {
                let d = msgs.drop_last();
                let s = CfgView::initial();
                assert(total_reads(msgs) == total_reads(d) + reads_len(msgs.last()));
                lemma_parse_all_wf(s, d);
                match parse_all(s, d) {
                    Ok(u) => {
                        if !u.split_repeats_edge(msgs.last().insn) {
                            lemma_parse_records_pc(u, msgs.last());
                        }
                    },
                    Err(_) => {},
                }
                assert(t.pc_insn.contains_key(msgs.last().insn.pc));
            },
            Err(_) => {},
        }
    }
}

/// One position of a reconciliation, where the new source is an instruction node:
/// an old source equal to it is kept; an old phi node is kept and then merges it;
/// any other old source gives way to a new phi node that merges exactly the two.
/// Every other existing node stays as it was.
#[verifier::spinoff_prover]
#[verifier::rlimit(40)]
proof fn lemma_merge_one(s: CfgView, o: usize, n: usize, t: CfgView, p: usize)
    requires
        s.wf(),
        o < s.insn_block.len(),
        n < s.insn_block.len(),
        !s.node(n).is_phi(),
        s.insn_block.len() < usize::MAX,
        s.blocks[0].nodes.len() < usize::MAX,
        (t, p) == (if s.equal_or_phi_includes(o, n) {
            (s, o)
        } else {
            s.phi_merge(o, n)
        }),
    ensures
        t.wf(),
        s.insn_block.len() <= t.insn_block.len(),
        forall|x: usize| x < s.insn_block.len() ==> #[trigger] t.node(x).insn == s.node(x).insn,
        forall|x: usize| x < s.insn_block.len() && x != o ==> #[trigger] t.node(x) == s.node(x),
        forall|x: usize, y: usize| x < s.insn_block.len() && #[trigger] s.node(x).srcs.contains(y)
            ==> #[trigger] t.node(x).srcs.contains(y),
        !s.node(o).is_phi() && o == n ==> p == o,
        s.node(o).is_phi() ==> p == o && t.node(o).srcs.contains(n),
        !s.node(o).is_phi() && o != n ==> p == s.insn_block.len() && p < t.insn_block.len() && t.node(p).is_phi()
            && t.node(p).srcs == seq![o, n],
{
    let (b, i) = s.insn_block[o as int];
    assert(s.blocks[b as int].nodes[i as int].index == o);
    assert(s.blocks[0].index == 0);
    if !s.equal_or_phi_includes(o, n) {
        lemma_phi_merge_wf(s, o, n);
        lemma_phi_merge_grows(s, o, n);
        if s.node(o).is_phi() {
            let srcs = s.node(o).srcs.push(n);
            assert(forall|j: int| 0 <= j < s.node(o).srcs.len() ==> #[trigger] s.node(o).srcs[j] < s.insn_block.len());
            assert forall|j: int| 0 <= j < srcs.len() implies #[trigger] srcs[j] < s.insn_block.len() by {
                if j < s.node(o).srcs.len() {
                    assert(srcs[j] == s.node(o).srcs[j]);
                }
            }
            lemma_with_srcs_wf(s, o, srcs);
            assert(t.node(o).srcs == srcs);
            assert(srcs[srcs.len() - 1] == n);
        } else {
            lemma_add_phi_node_frame(s, seq![o, n]);
            let pos = s.blocks[0].nodes.len() as usize;
            assert(t.insn_block[s.insn_block.len() as int] == (0usize, pos));
            assert(t.node(p).srcs == seq![o, n]);
        }
    } else {
        if !s.node(o).is_phi() {
            assert(o == n);
        }
    }
}

/// Reconciling sources position by position, where the new sources are instruction
/// nodes: a position whose old source is the new one keeps it; one whose old source
/// is a phi node keeps that phi node, which then merges the new source; any other
/// position gets a new phi node that merges exactly the old and the new source.
/// Every node keeps its instruction and its sources, phi nodes gaining some.
#[verifier::spinoff_prover]
#[verifier::rlimit(60)]
pub proof fn lemma_merge_srcs_cases(s: CfgView, olds: Seq<usize>, news: Seq<usize>)
    requires
        s.wf(),
        olds.len() == news.len(),
        forall|j: int| 0 <= j < olds.len() ==> #[trigger] olds[j] < s.insn_block.len(),
        forall|j: int| 0 <= j < news.len() ==> #[trigger] news[j] < s.insn_block.len(),
        forall|j: int| 0 <= j < news.len() ==> !s.node(#[trigger] news[j]).is_phi(),
        s.insn_block.len() + news.len() < usize::MAX,
        s.blocks[0].nodes.len() + news.len() < usize::MAX,
    ensures
        forall|x: usize| x < s.insn_block.len() ==> #[trigger] s.merge_srcs(olds, news).0.node(x).insn
            == s.node(x).insn,
        forall|x: usize, y: usize| x < s.insn_block.len() && #[trigger] s.node(x).srcs.contains(y)
            ==> #[trigger] s.merge_srcs(olds, news).0.node(x).srcs.contains(y),
        forall|j: int| 0 <= j < news.len() && !s.node(olds[j]).is_phi() && olds[j] == news[j]
            ==> #[trigger] s.merge_srcs(olds, news).1[j] == olds[j],
        forall|j: int| 0 <= j < news.len() && s.node(olds[j]).is_phi() ==> #[trigger] s.merge_srcs(olds, news).1[j]
            == olds[j] && s.merge_srcs(olds, news).0.node(olds[j]).srcs.contains(news[j]),
        forall|j: int| 0 <= j < news.len() && !s.node(olds[j]).is_phi() && olds[j] != news[j] ==> {
            let t = s.merge_srcs(olds, news).0;
            let p = #[trigger] s.merge_srcs(olds, news).1[j];
            &&& s.insn_block.len() <= p < t.insn_block.len()
            &&& t.node(p).is_phi()
            &&& t.node(p).srcs == seq![olds[j], news[j]]
        },
    decreases news.len(),
{
    lemma_merge_srcs_wf(s, olds, news);
    if news.len() > 0 {
        let k = news.len() - 1;
        let olds1 = olds.take(k);
        let news1 = news.drop_last();
        assert forall|j: int| 0 <= j < olds1.len() implies #[trigger] olds1[j] < s.insn_block.len() by {
            assert(olds1[j] == olds[j]);
        }
        assert forall|j: int| 0 <= j < news1.len() implies #[trigger] news1[j] < s.insn_block.len() by {
            assert(news1[j] == news[j]);
        }
        assert forall|j: int| 0 <= j < news1.len() implies !s.node(#[trigger] news1[j]).is_phi() by {
            assert(news1[j] == news[j]);
        }
        lemma_merge_srcs_wf(s, olds1, news1);
        lemma_merge_srcs_cases(s, olds1, news1);
        let (s1, acc) = s.merge_srcs(olds1, news1);
        let (t, fin) = s.merge_srcs(olds, news);
        let o = olds[k];
        let n = news.last();
        assert(n == news[k]);
        assert(s1.node(o).insn == s.node(o).insn);
        assert(s1.node(n).insn == s.node(n).insn);
        assert(s.insn_block.len() <= s1.insn_block.len());
        assert(s1.blocks[0].nodes.len() <= s.blocks[0].nodes.len() + k);
        let p = fin[k];
        lemma_merge_one(s1, o, n, t, p);
        assert forall|j: int| 0 <= j < k implies #[trigger] fin[j] == acc[j] && olds[j] == olds1[j] && news[j]
            == news1[j] by {
        }
        assert forall|j: int| 0 <= j < news.len() && !s.node(olds[j]).is_phi() && olds[j] == news[j]
            implies #[trigger] fin[j] == olds[j] by {
            if j < k {
                assert(acc[j] == olds1[j]);
            }
        }
        assert forall|j: int| 0 <= j < news.len() && s.node(olds[j]).is_phi() implies #[trigger] fin[j] == olds[j]
            && t.node(olds[j]).srcs.contains(news[j]) by {
            if j < k {
                assert(olds1[j] == olds[j] && news1[j] == news[j]);
                assert(fin[j] == acc[j]);
                assert(s1.node(olds1[j]).srcs.contains(news1[j]));
                assert(olds[j] < s1.insn_block.len());
            }
        }
        assert forall|j: int| 0 <= j < news.len() && !s.node(olds[j]).is_phi() && olds[j] != news[j] implies {
            let q = #[trigger] fin[j];
            &&& s.insn_block.len() <= q < t.insn_block.len()
            &&& t.node(q).is_phi()
            &&& t.node(q).srcs == seq![olds[j], news[j]]
        } by {
            if j < k {
                let q = acc[j];
                assert(s1.node(q).srcs == seq![olds1[j], news1[j]]);
                assert(q != o);
                assert(t.node(q) == s1.node(q));
            }
        }
        assert forall|x: usize, y: usize| x < s.insn_block.len() && #[trigger] s.node(x).srcs.contains(y)
            implies #[trigger] t.node(x).srcs.contains(y) by {
            assert(s1.node(x).srcs.contains(y));
            assert(x < s1.insn_block.len());
        }
        assert forall|x: usize| x < s.insn_block.len() implies #[trigger] t.node(x).insn == s.node(x).insn by {
            assert(s1.node(x).insn == s.node(x).insn);
        }
    }
}

/// Where every register's writer is an instruction node, so is every writer that a
/// read selects.
proof fn lemma_lookup_srcs_insns(s: CfgView, table: Map<usize, usize>, regs: Seq<u32>)
    requires
        forall|r: usize| #[trigger] table.contains_key(r) ==> !s.node(table[r]).is_phi(),
    ensures
        forall|j: int| 0 <= j < lookup_srcs(table, regs).len() ==> !s.node(#[trigger] lookup_srcs(table, regs)[j]).is_phi(),
    decreases regs.len(),
{
    if regs.len() > 0 {
        lemma_lookup_srcs_insns(s, table, regs.drop_last());
        let rest = lookup_srcs(table, regs.drop_last());
        let r = regs.last() as usize;
        if table.contains_key(r) {
            assert forall|j: int| 0 <= j < rest.push(table[r]).len() implies !s.node(
                #[trigger] rest.push(table[r])[j],
            ).is_phi() by {
                if j < rest.len() {
                    assert(rest.push(table[r])[j] == rest[j]);
                }
            }
        }
    }
}

/// How a message that reads registers reconciles the sources of its node, position
/// by position, with the current writers of the registers read (registers without
/// a writer skipped): the node ends with one source per writer; a position beyond
/// the node's old sources takes the writer; one whose old source is the writer keeps
/// it; one whose old source is a phi node keeps that phi node, which then merges
/// the writer; any other gets a new phi node, in the phi block, that merges exactly
/// the old source and the writer.
#[verifier::spinoff_prover]
#[verifier::rlimit(60)]
pub proof fn lemma_parse_reconciles_sources(s: CfgView, msg: MsgView)
    requires
        s.wf(),
        s.tracks_insns(),
        !s.split_repeats_edge(msg.insn),
        s.insn_block.len() + 1 + reads_len(msg) < usize::MAX,
        s.blocks.len() + 1 < usize::MAX,
    ensures
        msg.reg matches Some((srcs, _)) ==> {
            let t = s.parse(msg);
            let g = t.last_insn.unwrap();
            let news = lookup_srcs(s.reg_table, srcs);
            let olds = if s.pc_insn.contains_key(msg.insn.pc) {
                s.node(s.pc_insn[msg.insn.pc]).srcs
            } else {
                Seq::empty()
            };
            &&& t.node(g).srcs.len() == news.len()
            &&& forall|j: int| olds.len() <= j < news.len() ==> #[trigger] t.node(g).srcs[j] == news[j]
            &&& forall|j: int| 0 <= j < news.len() && j < olds.len() && olds[j] == news[j]
                ==> #[trigger] t.node(g).srcs[j] == olds[j]
            &&& forall|j: int| 0 <= j < news.len() && j < olds.len() && s.node(olds[j]).is_phi()
                ==> #[trigger] t.node(g).srcs[j] == olds[j] && t.node(olds[j]).srcs.contains(news[j])
            &&& forall|j: int| 0 <= j < news.len() && j < olds.len() && !s.node(olds[j]).is_phi() && olds[j] != news[j]
                ==> {
                let p = #[trigger] t.node(g).srcs[j];
                &&& s.num_nodes() <= p < t.num_nodes()
                &&& t.node(p).is_phi()
                &&& t.block_of(p) == 0
                &&& t.node(p).srcs == seq![olds[j], news[j]]
            }
        },
{
    lemma_place_wf(s, msg.insn);
    lemma_place_frame(s, msg.insn);
    lemma_place_nodes(s, msg.insn);
    lemma_parse_wf(s, msg);
    let (s1, g) = s.place(msg.insn);
    match msg.reg {
        Some((srcs, _)) => {
            lemma_resolve_wf(s1, g, srcs);
            let news = lookup_srcs(s1.reg_table, srcs);
            lemma_lookup_srcs(s1.reg_table, srcs, s.insn_block.len());
            lemma_lookup_srcs_insns(s, s1.reg_table, srcs);
            let olds0 = if s.pc_insn.contains_key(msg.insn.pc) {
                s.node(s.pc_insn[msg.insn.pc])
                    .srcs
            } else {
                Seq::empty()
            };
            let node = s1.node(g);
            assert(node.srcs == olds0);
            let (b, i) = s1.insn_block[g as int];
            assert(s1.blocks[b as int].nodes[i as int].index == g);
            assert(forall|j: int| 0 <= j < node.srcs.len() ==> #[trigger] node.srcs[j] < s1.insn_block.len());
            if s.pc_insn.contains_key(msg.insn.pc) {
                let (b0, i0) = s.insn_block[g as int];
                assert(s.blocks[b0 as int].nodes[i0 as int].index == g);
                assert(forall|j: int| 0 <= j < olds0.len() ==> #[trigger] olds0[j] < s.insn_block.len());
            }
            assert forall|j: int| 0 <= j < news.len() implies !s1.node(#[trigger] news[j]).is_phi()
                && news[j] < s.insn_block.len() by {
                assert(s1.node(news[j]) == s.node(news[j]));
            }
            let olds = pad_srcs(node.srcs, news);
            assert forall|j: int| 0 <= j < olds.len() implies #[trigger] olds[j] < s1.insn_block.len() by {
                if j >= node.srcs.len() {
                    assert(olds[j] == news[j]);
                }
            }
            let olds2 = olds.take(news.len() as int);
            assert forall|j: int| 0 <= j < olds2.len() implies #[trigger] olds2[j] < s1.insn_block.len() && (j
                < olds0.len() ==> olds2[j] == olds0[j] && olds0[j] < s.insn_block.len()) && (j >= olds0.len()
                ==> olds2[j] == news[j]) by {
                assert(olds2[j] == olds[j]);
            }
            assert(s1.blocks[0].index == 0);
            lemma_merge_srcs_wf(s1, olds2, news);
            lemma_merge_srcs_cases(s1, olds2, news);
            let (s2, fin) = s1.merge_srcs(olds2, news);
            assert(s2.insn_block[g as int] == s1.insn_block[g as int]);
            assert(s2.blocks[b as int] == s1.blocks[b as int]);
            lemma_with_srcs_wf(s2, g, fin);
            let s3 = s2.with_srcs(g, fin);
            let t = s.parse(msg);
            assert(t.blocks == s3.blocks && t.insn_block == s3.insn_block);
            assert(t.last_insn == Some(g));
            assert(t.node(g).srcs == fin);
            assert(!s1.node(g).is_phi());
            assert forall|j: int| olds0.len() <= j < news.len() implies #[trigger] t.node(g).srcs[j] == news[j] by {
                assert(olds2[j] == news[j]);
                assert(!s1.node(olds2[j]).is_phi());
            }
            assert forall|j: int| 0 <= j < news.len() && j < olds0.len() && olds0[j] == news[j]
                implies #[trigger] t.node(g).srcs[j] == olds0[j] by {
                assert(olds2[j] == olds0[j]);
                assert(!s1.node(olds2[j]).is_phi());
            }
            assert forall|j: int| 0 <= j < news.len() && j < olds0.len() && s.node(olds0[j]).is_phi()
                implies #[trigger] t.node(g).srcs[j] == olds0[j] && t.node(olds0[j]).srcs.contains(news[j]) by {
                assert(olds2[j] == olds0[j]);
                assert(s1.node(olds0[j]) == s.node(olds0[j]));
                assert(fin[j] == olds2[j]);
                assert(olds0[j] != g);
                assert(t.node(olds0[j]) == s2.node(olds0[j]));
            }
            assert forall|j: int| 0 <= j < news.len() && j < olds0.len() && !s.node(olds0[j]).is_phi() && olds0[j]
                != news[j] implies {
                let p = #[trigger] t.node(g).srcs[j];
                &&& s.num_nodes() <= p < t.num_nodes()
                &&& t.node(p).is_phi()
                &&& t.block_of(p) == 0
                &&& t.node(p).srcs == seq![olds0[j], news[j]]
            } by {
                assert(olds2[j] == olds0[j]);
                assert(s1.node(olds0[j]) == s.node(olds0[j]));
                let p = fin[j];
                assert(p != g);
                assert(t.node(p) == s2.node(p));
                let (bp, ip) = t.insn_block[p as int];
                assert(t.blocks[bp as int].nodes[ip as int].index == p);
            }
        },
        None => {},
    }
}

/// How a message extends the control flow. Where its program counter is new and
/// the last instruction transfers control, or there is none, its node leads a new
/// block, entered by an edge from the current block where there is one; where its
/// program counter is new and the last instruction does not transfer control, the
/// node joins the current block. Where its program counter was seen, the last
/// instruction transfers control and the node is not the first of its block (a jump
/// into the middle of a block), the block is split before the node, with an edge
/// from the old block to the new one that the node now leads, and then the jump's
/// edge: from the block that holds the jumping instruction to the node's block. In
/// every other case no block and no edge is added.
#[verifier::spinoff_prover]
#[verifier::rlimit(60)]
pub proof fn lemma_parse_edges(s: CfgView, msg: MsgView)
    requires
        s.wf(),
        !s.split_repeats_edge(msg.insn),
        s.insn_block.len() + 1 + reads_len(msg) < usize::MAX,
        s.blocks.len() + 1 < usize::MAX,
    ensures
        ({
            let t = s.parse(msg);
            let g = t.last_insn.unwrap();
            let nb = s.blocks.len() as usize;
            let pc = msg.insn.pc;
            &&& !s.pc_insn.contains_key(pc) && !s.last_is_not_control() ==> {
                &&& t.blocks.len() == s.blocks.len() + 1
                &&& t.block_of(g) == nb
                &&& t.is_leading(g)
                &&& t.edges == match s.current_block {
                    Some(c) => s.edges.push((c, nb)),
                    None => s.edges,
                }
            }
            &&& !s.pc_insn.contains_key(pc) && s.last_is_not_control() ==> {
                &&& t.blocks.len() == s.blocks.len()
                &&& Some(t.block_of(g)) == s.current_block
                &&& t.edges == s.edges
            }
            &&& s.pc_insn.contains_key(pc) && s.last_is_control() && !s.is_leading(s.pc_insn[pc]) ==> {
                let l = s.last_insn.unwrap();
                let b = s.block_of(s.pc_insn[pc]);
                &&& g == s.pc_insn[pc]
                &&& t.blocks.len() == s.blocks.len() + 1
                &&& t.block_of(g) == nb
                &&& t.is_leading(g)
                &&& t.block_of(l) == if s.block_of(l) == b {
                    nb
                } else {
                    s.block_of(l)
                }
                &&& t.edges == s.edges.push((b, nb)).push((t.block_of(l), t.block_of(g)))
            }
            &&& s.pc_insn.contains_key(pc) && !(s.last_is_control() && !s.is_leading(s.pc_insn[pc])) ==> {
                &&& g == s.pc_insn[pc]
                &&& t.blocks.len() == s.blocks.len()
                &&& t.edges == s.edges
                &&& t.insn_block[g as int] == s.insn_block[g as int]
            }
        }),
{
    lemma_place_wf(s, msg.insn);
    lemma_place_nodes(s, msg.insn);
    let (s1, g) = s.place(msg.insn);
    match msg.reg {
        Some((srcs, _)) => {
            lemma_resolve_wf(s1, g, srcs);
            lemma_resolve_adds_phis(s1, g, srcs);
        },
        None => {},
    }
    let s2 = match msg.reg {
        Some((srcs, _)) => s1.resolve_srcs(g, srcs),
        None => s1,
    };
    let t = s.parse(msg);
    assert(t.blocks.len() == s2.blocks.len() && t.edges == s2.edges && t.insn_block == s2.insn_block);
    assert(t.last_insn == Some(g));
    assert(s2.blocks.len() == s1.blocks.len() && s2.edges == s1.edges);
    assert forall|m: int| 0 <= m < s1.insn_block.len() implies #[trigger] t.insn_block[m] == s1.insn_block[m] by {
        assert(s2.insn_block[m] == s1.insn_block[m]);
    }
    let pc = msg.insn.pc;
    let nb = s.blocks.len() as usize;
    if s.pc_insn.contains_key(pc) {
        let g0 = s.pc_insn[pc];
        assert(g == g0);
        if !s.last_is_not_control() && s.last_is_control() && !s.is_leading(g0) {
            let b = s.block_of(g0);
            let k = s.insn_block[g0 as int].1;
            lemma_split_wf(s, b, k);
            let sp = s.split(b, k);
            let l = s.last_insn.unwrap();
            assert(sp.insn_block[g0 as int] == (nb, 0usize));
            assert(sp.edges == s.edges.push((b, nb)));
            assert(s1 == CfgView { edges: sp.edges.push((sp.block_of(l), sp.block_of(g0))), ..sp });
            if s.block_of(l) == b {
                assert(s.insn_block[l as int].1 >= k);
            }
            assert(t.insn_block[l as int] == sp.insn_block[l as int]);
            assert(t.insn_block[g0 as int] == sp.insn_block[g0 as int]);
        } else {
            if s.last_is_control() {
                assert(!s.last_is_not_control());
            }
            assert(s1 == s);
            assert(t.insn_block[g as int] == s.insn_block[g as int]);
        }
    } else {
        let n = s.insn_block.len();
        assert(g == n);
        if s.last_is_not_control() {
            let c = s.current_block.unwrap();
            let t1 = s.add_insn_node(msg.insn, c);
            assert(s1 == t1);
            assert(t1.insn_block[n as int].0 == c);
            assert(t.insn_block[n as int] == t1.insn_block[n as int]);
        } else {
            let sb = s.add_block(s.current_block);
            let t1 = sb.add_insn_node(msg.insn, nb);
            assert(s1 == t1);
            assert(t1.insn_block[n as int] == (nb, 0usize));
            assert(t.insn_block[n as int] == t1.insn_block[n as int]);
        }
    }
}
} // verus!
