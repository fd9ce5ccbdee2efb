use vstd::prelude::*;
use crate::instruction::{Insn, InsnView};

verus! {

/// The abstract value of a node.
pub struct NodeView {
    /// The block the node was created in.
    pub block: usize,
    /// The global index of the node.
    pub index: usize,
    /// The instruction of an instruction node; none for a phi node.
    pub insn: Option<InsnView>,
    /// The nodes whose values this node reads.
    pub srcs: Seq<usize>,
}

impl NodeView {
    /// Whether this is a phi node, which merges the values of several nodes.
    pub open spec fn is_phi(self) -> bool {
        self.insn is None
    }
}

/// The view of an optional instruction.
pub open spec fn opt_insn_view(i: Option<Insn>) -> Option<InsnView> {
    match i {
        Some(x) => Some(x@),
        None => None,
    }
}

/// The digits, most significant first, of `n` written in base `base`.
pub open spec fn digits(n: nat, base: nat) -> Seq<char>
    recommends
        2 <= base <= 16,
    decreases n
    via digits_decreases
{
    if n < base || base < 2 {
        seq![digit_chars()[n as int]]
    } else {
        digits(n / base, base).push(digit_chars()[(n % base) as int])
    }
}

#[via_fn]
proof fn digits_decreases(n: nat, base: nat) {
    if !(n < base || base < 2) {
        assert(n / base < n) by (nonlinear_arith)
            requires
                n >= base,
                base >= 2,
        ;
    }
}

/// The characters of the digits up to fifteen.
pub open spec fn digit_chars() -> Seq<char> {
    seq!['0', '1', '2', '3', '4', '5', '6', '7', '8', '9', 'A', 'B', 'C', 'D', 'E', 'F']
}

/// The text of a node: `Node` and its index, then, for an instruction node, its
/// symbol (`global` where it has none), `+`, its offset (0 where it has none), `: `
/// and its disassembly; for a phi node, ` PHI`.
pub open spec fn node_text(v: NodeView) -> Seq<char> {
    seq!['N', 'o', 'd', 'e', ' '] + digits(v.index as nat, 10) + match v.insn {
        Some(i) => seq![' '] + match i.symbol {
            Some(sym) => sym,
            None => seq!['g', 'l', 'o', 'b', 'a', 'l'],
        } + seq!['+'] + digits(
            match i.offset {
                Some(o) => o as nat,
                None => 0,
            },
            10,
        ) + seq![':', ' '] + i.disasm,
        None => seq![' ', 'P', 'H', 'I'],
    }
}

/// Appends the digits of `n` in base `base`.
pub fn push_digits(s: &mut String, n: u64, base: u64)
    requires
        2 <= base <= 16,
    ensures
        final(s)@ == old(s)@ + digits(n as nat, base as nat),
    decreases n,
{
    let all = "0123456789ABCDEF";
    proof {
        reveal_strlit("0123456789ABCDEF");
        assert(all@ == digit_chars());
    }
    if n >= base {
        push_digits(s, n / base, base);
    }
    let d = (n % base) as usize;
    let one = all.substring_char(d, d + 1);
    s.append(one);
    proof {
        assert(one@ =~= seq![digit_chars()[d as int]]);
    }
}

/// A node of the data-dependence graph: an executed instruction, or a phi node
/// that merges the different producers of one operand.
#[derive(Clone, Debug)]
pub struct Node {
    belongs_to: usize,
    index: usize,
    insn: Option<Insn>,
    pub srcs: Vec<usize>,
}

impl View for Node {
    type V = NodeView;

    closed spec fn view(&self) -> NodeView {
        NodeView {
            block: self.belongs_to,
            index: self.index,
            insn: opt_insn_view(self.insn),
            srcs: self.srcs@,
        }
    }
}

impl Node {
    /// An instruction node of block `belongs_to` with global index `index`, without sources.
    pub fn new(belongs_to: usize, index: usize, insn: Insn) -> (r: Node)
        ensures
            r@ == (NodeView { block: belongs_to, index, insn: Some(insn@), srcs: Seq::empty() }),
    {
        Node { belongs_to, index, insn: Some(insn), srcs: Vec::new() }
    }

    /// A phi node of block `belongs_to` with global index `index`, without sources.
    pub fn new_phi(belongs_to: usize, index: usize) -> (r: Node)
        ensures
            r@ == (NodeView { block: belongs_to, index, insn: None, srcs: Seq::empty() }),
    {
        Node { belongs_to, index, insn: None, srcs: Vec::new() }
    }

    /// The global index.
    pub fn index(&self) -> (r: usize)
        ensures
            r == self@.index,
    {
        self.index
    }

    /// The instruction, for an instruction node.
    pub fn insn(&self) -> (r: Option<&Insn>)
        ensures
            match r {
                Some(i) => self@.insn == Some(i@),
                None => self@.insn is None,
            },
    {
        match &self.insn {
            Some(i) => Some(i),
            None => None,
        }
    }

    /// Whether this is a phi node.
    pub fn is_phi(&self) -> (r: bool)
        ensures
            r == self@.is_phi(),
    {
        self.insn.is_none()
    }

    /// The block the node was created in.
    pub fn block(&self) -> (r: usize)
        ensures
            r == self@.block,
    {
        self.belongs_to
    }

    /// Moves the sources of `that` to the end of this node's sources.
    pub fn set_srcs_from(&mut self, that: &mut Node)
        ensures
            final(self)@ == (NodeView { srcs: old(self)@.srcs + old(that)@.srcs, ..old(self)@ }),
            final(that)@ == (NodeView { srcs: Seq::empty(), ..old(that)@ }),
    {
        self.srcs.append(&mut that.srcs);
    }

    /// A copy of the sources.
    pub fn srcs(&self) -> (r: Vec<usize>)
        ensures
            r@ == self@.srcs,
    {
        self.srcs.clone()
    }

    /// The text of the node (see `node_text`).
    pub fn text(&self) -> (r: String)
        ensures
            r@ == node_text(self@),
    {
        let mut s = String::from_str("Node ");
        proof {
            reveal_strlit("Node ");
        }
        push_digits(&mut s, self.index as u64, 10);
        match &self.insn {
            Some(insn) => {
                s.append(" ");
                match insn.symbol() {
                    Some(sym) => s.append(sym.as_str()),
                    None => s.append("global"),
                }
                s.append("+");
                let offset: u64 = match insn.offset() {
                    Some(o) => o,
                    None => 0,
                };
                push_digits(&mut s, offset, 10);
                s.append(": ");
                s.append(insn.disasm());
                proof {
                    reveal_strlit(" ");
                    reveal_strlit("global");
                    reveal_strlit("+");
                    reveal_strlit(": ");
                }
            },
            None => {
                s.append(" PHI");
                proof {
                    reveal_strlit(" PHI");
                }
            },
        }
        proof {
            assert(s@ =~= node_text(self@));
        }
        s
    }

    /// Replaces the sources.
    pub fn set_srcs(&mut self, srcs: Vec<usize>)
        ensures
            final(self)@ == (NodeView { srcs: srcs@, ..old(self)@ }),
    {
        self.srcs = srcs;
    }
}

} // verus!
