use utrace::errors::Error;
use utrace::graph::{Edge as GraphEdge, Graph, Vertex};
use utrace::il::block::{Block, Edge};
use utrace::il::node::Node;
use utrace::il::CFG;
use utrace::instruction::Insn;
use utrace::loader::stream_to_cfg;
use utrace::streamer::proto::{Inst, RegAccess, Timestamp, UtMsg};

const CONTROL: u64 = 1 << 12;

fn msg(pc: u64, flags: u64, srcs: Vec<u32>, dsts: Vec<u32>) -> UtMsg {
    UtMsg {
        inst: Inst {
            binary: 0x13,
            mnemonic: "op".to_string(),
            disasm: format!("op@{:x}", pc),
            pc,
            symbol: None,
            offset: None,
            flags,
        },
        timestamp: Timestamp { commit: 0 },
        reg: Some(RegAccess { srcs, dsts }),
    }
}

fn plain(pc: u64, flags: u64) -> UtMsg {
    msg(pc, flags, vec![], vec![])
}

fn edges(cfg: &CFG) -> Vec<(usize, usize)> {
    cfg.graph().edges().iter().map(|e| (e.head(), e.tail())).collect()
}

fn block_pcs(cfg: &CFG, b: usize) -> Vec<u64> {
    cfg.graph().vertices()[b]
        .nodes()
        .iter()
        .map(|n| n.insn().map(|i| i.pc()).unwrap_or(u64::MAX))
        .collect()
}

#[test]
fn new_cfg_has_only_the_phi_block() {
    let cfg = CFG::new();
    assert_eq!(cfg.num_blocks(), 1);
    assert_eq!(cfg.num_nodes(), 0);
    assert_eq!(cfg.graph().vertices().len(), 1);
    assert_eq!(cfg.graph().vertices()[0].index(), 0);
    assert!(cfg.graph().vertices()[0].nodes().is_empty());
    assert!(edges(&cfg).is_empty());
}

#[test]
fn straight_line_code_shares_one_block() {
    let mut cfg = CFG::new();
    for pc in [0u64, 4, 8] {
        let m = plain(pc, 0);
        assert_eq!(cfg.check_msg(&m), Ok(()));
        cfg.parse_msg(m);
    }
    assert_eq!(cfg.num_blocks(), 2);
    assert_eq!(cfg.num_nodes(), 3);
    assert_eq!(block_pcs(&cfg, 1), vec![0, 4, 8]);
    assert!(edges(&cfg).is_empty());
}

#[test]
fn control_transfer_starts_a_new_block() {
    let mut cfg = CFG::new();
    cfg.parse_msg(plain(0, 0));
    cfg.parse_msg(plain(4, CONTROL));
    cfg.parse_msg(plain(100, 0));
    assert_eq!(cfg.num_blocks(), 3);
    assert_eq!(block_pcs(&cfg, 1), vec![0, 4]);
    assert_eq!(block_pcs(&cfg, 2), vec![100]);
    assert_eq!(edges(&cfg), vec![(1, 2)]);
}

#[test]
fn jump_into_a_block_splits_it() {
    let mut cfg = CFG::new();
    for (pc, f) in [(0u64, 0u64), (4, 0), (8, CONTROL), (4, 0)] {
        cfg.parse_msg(plain(pc, f));
    }
    assert_eq!(cfg.num_blocks(), 3);
    assert_eq!(cfg.num_nodes(), 3);
    assert_eq!(block_pcs(&cfg, 1), vec![0]);
    assert_eq!(block_pcs(&cfg, 2), vec![4, 8]);
    assert_eq!(edges(&cfg), vec![(1, 2), (2, 2)]);
    // Nodes keep the block they were created in.
    assert_eq!(cfg.graph().vertices()[2].nodes()[0].block(), 1);
}

#[test]
fn jump_to_a_block_start_adds_nothing() {
    let mut cfg = CFG::new();
    for (pc, f) in [(0u64, 0u64), (4, CONTROL), (0, 0), (4, CONTROL)] {
        cfg.parse_msg(plain(pc, f));
    }
    assert_eq!(cfg.num_blocks(), 2);
    assert_eq!(cfg.num_nodes(), 2);
    assert!(edges(&cfg).is_empty());
}

#[test]
fn repeated_edge_is_detected() {
    let seq = [(0u64, 0u64), (8, CONTROL), (0, 0), (4, 0), (8, CONTROL)];
    let mut cfg = CFG::new();
    for (pc, f) in seq {
        let m = plain(pc, f);
        assert_eq!(cfg.check_msg(&m), Ok(()));
        cfg.parse_msg(m);
    }
    assert_eq!(block_pcs(&cfg, 1), vec![0, 8, 4]);
    assert_eq!(cfg.check_msg(&plain(4, 0)), Err(Error::GraphDuplicateEdge(1, 2)));
    let mut msgs: Vec<UtMsg> = seq.iter().map(|&(pc, f)| plain(pc, f)).collect();
    msgs.push(plain(4, 0));
    assert_eq!(stream_to_cfg(&msgs).err(), Some(Error::GraphDuplicateEdge(1, 2)));
}

#[test]
fn readers_depend_on_last_writers() {
    let mut cfg = CFG::new();
    cfg.parse_msg(msg(0, 0, vec![], vec![1]));
    cfg.parse_msg(msg(4, 0, vec![1, 7], vec![2]));
    let b = &cfg.graph().vertices()[1];
    assert_eq!(b.nodes()[0].srcs(), Vec::<usize>::new());
    assert_eq!(b.nodes()[1].srcs(), vec![0]);
    assert_eq!(b.nodes()[1].index(), 1);
}

#[test]
fn differing_writers_are_merged_in_a_phi_node() {
    let mut cfg = CFG::new();
    // A writes r1; B reads it; C jumps; D writes r1; B reads it again.
    cfg.parse_msg(msg(0, 0, vec![], vec![1]));
    cfg.parse_msg(msg(4, 0, vec![1], vec![]));
    cfg.parse_msg(msg(8, CONTROL, vec![], vec![]));
    cfg.parse_msg(msg(12, 0, vec![], vec![1]));
    cfg.parse_msg(msg(4, 0, vec![1], vec![]));
    assert_eq!(cfg.num_nodes(), 5);
    let phi_block = &cfg.graph().vertices()[0];
    assert_eq!(phi_block.nodes().len(), 1);
    assert!(phi_block.nodes()[0].is_phi());
    assert_eq!(phi_block.nodes()[0].index(), 4);
    assert_eq!(phi_block.nodes()[0].srcs(), vec![0, 3]);
    assert_eq!(cfg.graph().vertices()[1].nodes()[1].srcs(), vec![4]);
    // Reading the same writer again leaves the phi node as it is.
    cfg.parse_msg(msg(12, 0, vec![], vec![1]));
    cfg.parse_msg(msg(4, 0, vec![1], vec![]));
    assert_eq!(cfg.num_nodes(), 5);
    assert_eq!(cfg.graph().vertices()[0].nodes()[0].srcs(), vec![0, 3]);
    assert_eq!(cfg.graph().vertices()[1].nodes()[1].srcs(), vec![4]);
    // A third writer joins the existing phi node.
    cfg.parse_msg(msg(8, CONTROL, vec![], vec![]));
    cfg.parse_msg(msg(16, 0, vec![], vec![1]));
    cfg.parse_msg(msg(4, 0, vec![1], vec![]));
    assert_eq!(cfg.graph().vertices()[0].nodes()[0].srcs(), vec![0, 3, 5]);
    assert_eq!(cfg.graph().vertices()[1].nodes()[1].srcs(), vec![4]);
}

#[test]
fn stream_to_cfg_parses_in_order() {
    let msgs = vec![plain(0, 0), plain(4, 0), plain(8, CONTROL), plain(4, 0)];
    let cfg = stream_to_cfg(&msgs).unwrap();
    assert_eq!(cfg.num_blocks(), 3);
    assert_eq!(edges(&cfg), vec![(1, 2), (2, 2)]);
    let empty = stream_to_cfg(&Vec::new()).unwrap();
    assert_eq!(empty.num_blocks(), 1);
}

fn node_for(pc: u64, index: usize, block: usize) -> Node {
    Node::new(block, index, Insn::new(&plain(pc, 0)))
}

#[test]
fn node_sources() {
    let mut a = node_for(0, 3, 1);
    assert_eq!(a.index(), 3);
    assert_eq!(a.block(), 1);
    assert!(!a.is_phi());
    assert_eq!(a.insn().unwrap().pc(), 0);
    a.set_srcs(vec![1, 2]);
    let mut p = Node::new_phi(0, 4);
    assert!(p.is_phi());
    assert!(p.insn().is_none());
    p.set_srcs(vec![5]);
    a.set_srcs_from(&mut p);
    assert_eq!(a.srcs(), vec![1, 2, 5]);
    assert_eq!(p.srcs(), Vec::<usize>::new());
}

#[test]
fn block_nodes_and_lookups() {
    let mut b = Block::new(2);
    assert_eq!(b.index(), 2);
    assert_eq!(b.add_insn(7, Insn::new(&plain(40, 0))), 7);
    assert_eq!(b.add_phi(8), 8);
    assert_eq!(b.add_insn(9, Insn::new(&plain(44, 0))), 9);
    assert_eq!(b.nodes().len(), 3);
    assert_eq!(b.phi_nodes().iter().map(|n| n.index()).collect::<Vec<_>>(), vec![8]);
    assert_eq!(b.insn_nodes().iter().map(|n| n.index()).collect::<Vec<_>>(), vec![7, 9]);
    assert_eq!(b.node(1).unwrap().index(), 8);
    assert_eq!(b.node(3).err(), Some(Error::InvalidInsnIndex(3)));
    assert_eq!(b.insn_node(1).err(), Some(Error::WrongNodeType));
    assert_eq!(b.insn_node(2).unwrap().index(), 9);
    assert_eq!(b.insn_node(5).err(), Some(Error::InvalidInsnIndex(5)));
    b.node_mut(0).unwrap().set_srcs(vec![1]);
    assert_eq!(b.nodes()[0].srcs(), vec![1]);
    assert_eq!(b.node_mut(4).err(), Some(Error::InvalidInsnIndex(4)));
    assert_eq!(b.insn_node_mut(1).err(), Some(Error::WrongNodeType));
    b.insn_node_mut(2).unwrap().set_srcs(vec![7]);
    assert_eq!(b.nodes()[2].srcs(), vec![7]);
    b.nodes_mut().truncate(1);
    assert_eq!(b.nodes().len(), 1);
}

#[test]
fn block_add_node_copies_and_moves_sources() {
    let mut b = Block::new(5);
    let mut n = node_for(12, 3, 1);
    n.set_srcs(vec![0, 1]);
    b.add_node(&mut n);
    assert_eq!(n.srcs(), Vec::<usize>::new());
    let copy = &b.nodes()[0];
    assert_eq!(copy.index(), 3);
    assert_eq!(copy.block(), 5);
    assert_eq!(copy.insn().unwrap().pc(), 12);
    assert_eq!(copy.srcs(), vec![0, 1]);
    let mut p = Node::new_phi(0, 6);
    p.set_srcs(vec![2]);
    b.add_node(&mut p);
    assert!(b.nodes()[1].is_phi());
    assert_eq!(b.nodes()[1].srcs(), vec![2]);
}

#[test]
fn graph_insertions() {
    let mut g: Graph<Block, Edge> = Graph::new();
    assert_eq!(g.insert_vertex(Block::new(1)), Err(Error::GraphVertexIndex(1)));
    assert_eq!(g.insert_vertex(Block::new(0)), Ok(()));
    assert_eq!(g.insert_vertex(Block::new(1)), Ok(()));
    assert_eq!(g.insert_vertex(Block::new(1)), Err(Error::GraphVertexIndex(1)));
    assert_eq!(g.num_vertices(), 2);
    assert_eq!(g.insert_edge(Edge::new(0, 1)), Ok(()));
    assert!(g.has_edge(0, 1));
    assert!(!g.has_edge(1, 0));
    assert_eq!(g.insert_edge(Edge::new(0, 1)), Err(Error::GraphDuplicateEdge(0, 1)));
    assert_eq!(g.insert_edge(Edge::new(2, 1)), Err(Error::GraphVertexNotFound(2)));
    assert_eq!(g.insert_edge(Edge::new(1, 3)), Err(Error::GraphVertexNotFound(3)));
    assert_eq!(g.edges().len(), 1);
    assert_eq!(g.vertex(1).unwrap().index(), 1);
    assert_eq!(g.vertex(2).err(), Some(Error::GraphVertexNotFound(2)));
    g.vertex_mut(1).unwrap().add_phi(0);
    assert_eq!(g.vertices()[1].nodes().len(), 1);
    assert!(g.vertex_mut(9).is_err());
}

#[test]
fn revisited_pc_keeps_its_first_instruction() {
    let mut cfg = CFG::new();
    cfg.parse_msg(plain(0, 0));
    cfg.parse_msg(plain(4, CONTROL));
    assert_eq!(cfg.num_nodes(), 2);
    // The same program counter again, now with other flags: no new node, and the
    // node keeps the instruction first seen, so it still counts as a control transfer.
    let mut again = plain(4, 0);
    again.inst.disasm = "changed".to_string();
    cfg.parse_msg(again);
    assert_eq!(cfg.num_nodes(), 2);
    // The jump back to it split its block: the node now leads block 2.
    assert_eq!(edges(&cfg), vec![(1, 2), (2, 2)]);
    let node = &cfg.graph().vertices()[2].nodes()[0];
    assert_eq!(node.index(), 1);
    assert_eq!(node.insn().unwrap().disasm(), "op@4");
    assert!(node.insn().unwrap().is_control());
    // A control transfer last: the next new instruction opens a new block.
    cfg.parse_msg(plain(8, 0));
    assert_eq!(cfg.num_nodes(), 3);
    assert_eq!(cfg.num_blocks(), 4);
    assert_eq!(block_pcs(&cfg, 3), vec![8]);
}

#[test]
fn message_without_registers_keeps_sources() {
    let mut cfg = CFG::new();
    cfg.parse_msg(msg(0, 0, vec![], vec![1]));
    cfg.parse_msg(msg(4, 0, vec![1], vec![]));
    let mut bare = plain(0, 0);
    bare.reg = None;
    cfg.parse_msg(bare);
    assert_eq!(cfg.num_nodes(), 2);
    assert!(cfg.graph().vertices()[0].nodes().is_empty());
    assert_eq!(cfg.graph().vertices()[1].nodes()[1].srcs(), vec![0]);
    // The register table is unchanged: a later reader still sees node 0.
    cfg.parse_msg(msg(8, 0, vec![1], vec![]));
    assert_eq!(cfg.graph().vertices()[1].nodes()[2].srcs(), vec![0]);
}

#[test]
fn node_and_block_texts() {
    let mut m = plain(0x10, 0);
    m.inst.symbol = Some("main".to_string());
    m.inst.offset = Some(12);
    let named = Node::new(26, 7, Insn::new(&m));
    assert_eq!(named.text(), "Node 7 main+12: op@10");
    let global = Node::new(1, 120, Insn::new(&plain(4, 0)));
    assert_eq!(global.text(), "Node 120 global+0: op@4");
    let phi = Node::new_phi(0, 0);
    assert_eq!(phi.text(), "Node 0 PHI");

    let mut block = Block::new(26);
    block.add_phi(3);
    block.add_insn(5, Insn::new(&plain(8, 0)));
    assert_eq!(
        block.text(),
        "[ Block: 0x1A ]\nNode 3 PHI\nNode 3 PHI\nNode 5 global+0: op@8\n"
    );
}
