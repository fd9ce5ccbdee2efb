pub mod accessor;
pub mod flag;

use vstd::prelude::*;
use crate::instruction::accessor::{InsnAccess, bit_set};
use crate::instruction::flag::{Flags, lemma_flag_positions};
use crate::streamer::proto::Inst;
use crate::streamer::proto::UtMsg;

verus! {

/// The abstract value of an instruction.
pub struct InsnView {
    pub bits: u64,
    pub mnemonic: Seq<char>,
    pub disasm: Seq<char>,
    pub pc: u64,
    pub symbol: Option<Seq<char>>,
    pub offset: Option<u64>,
    pub flags: u64,
}

/// The optional string `s`, viewed.
pub open spec fn opt_str_view(s: Option<String>) -> Option<Seq<char>> {
    match s {
        Some(t) => Some(t@),
        None => None,
    }
}

/// The instruction that a trace message's instruction record describes.
pub open spec fn inst_view(inst: Inst) -> InsnView {
    InsnView {
        bits: inst.binary as u64,
        mnemonic: inst.mnemonic@,
        disasm: inst.disasm@,
        pc: inst.pc,
        symbol: opt_str_view(inst.symbol),
        offset: inst.offset,
        flags: inst.flags,
    }
}

/// An executed instruction: its word, its text and its properties.
#[derive(Debug)]
pub struct Insn {
    b: u64,
    mnemonic: String,
    disasm: String,
    pc: u64,
    symbol: Option<String>,
    offset: Option<u64>,
    flags: u64,
}

impl View for Insn {
    type V = InsnView;

    closed spec fn view(&self) -> InsnView {
        InsnView {
            bits: self.b,
            mnemonic: self.mnemonic@,
            disasm: self.disasm@,
            pc: self.pc,
            symbol: opt_str_view(self.symbol),
            offset: self.offset,
            flags: self.flags,
        }
    }
}

fn clone_opt_string(s: &Option<String>) -> (r: Option<String>)
    ensures
        opt_str_view(r) == opt_str_view(*s),
{
    match s {
        Some(t) => Some(t.clone()),
        None => None,
    }
}

impl Clone for Insn {
    fn clone(&self) -> (r: Self)
        ensures
            r@ == self@,
    {
        Insn {
            b: self.b,
            mnemonic: self.mnemonic.clone(),
            disasm: self.disasm.clone(),
            pc: self.pc,
            symbol: clone_opt_string(&self.symbol),
            offset: self.offset,
            flags: self.flags,
        }
    }
}

impl Insn {
    /// The instruction of a trace message.
    pub fn new(msg: &UtMsg) -> (r: Insn)
        ensures
            r@ == inst_view(msg.inst),
    {
        Insn {
            b: msg.inst.binary as u64,
            mnemonic: msg.inst.mnemonic.clone(),
            disasm: msg.inst.disasm.clone(),
            pc: msg.inst.pc,
            symbol: clone_opt_string(&msg.inst.symbol),
            offset: msg.inst.offset,
            flags: msg.inst.flags,
        }
    }

    /// The program counter.
    pub fn pc(&self) -> (r: u64)
        ensures
            r == self@.pc,
    {
        self.pc
    }

    /// The symbol of the function the instruction belongs to.
    pub fn symbol(&self) -> (r: Option<&String>)
        ensures
            match r {
                Some(t) => self@.symbol == Some(t@),
                None => self@.symbol is None,
            },
    {
        match &self.symbol {
            Some(s) => Some(s),
            None => None,
        }
    }

    /// The offset of the instruction from its symbol.
    pub fn offset(&self) -> (r: Option<u64>)
        ensures
            r == self@.offset,
    {
        self.offset
    }

    /// The mnemonic.
    pub fn mnemonic(&self) -> (r: &str)
        ensures
            r@ == self@.mnemonic,
    {
        self.mnemonic.as_str()
    }

    /// The disassembly.
    pub fn disasm(&self) -> (r: &str)
        ensures
            r@ == self@.disasm,
    {
        self.disasm.as_str()
    }

    /// Whether the instruction has the property `flag`.
    pub fn has_flag(&self, flag: Flags) -> (r: bool)
        ensures
            r == bit_set(self@.flags, flag.spec_position()),
    {
        flag.contains_flag(self.flags)
    }

    /// Whether the instruction loads from memory.
    pub fn is_load(&self) -> (r: bool)
        ensures
            r == bit_set(self@.flags, Flags::IsLoad.spec_position()),
            r == bit_set(self@.flags, 6),
    {
        proof {
            lemma_flag_positions();
        }
        self.has_flag(Flags::IsLoad)
    }

    /// Whether the instruction stores to memory.
    pub fn is_store(&self) -> (r: bool)
        ensures
            r == bit_set(self@.flags, Flags::IsStore.spec_position()),
            r == bit_set(self@.flags, 7),
    {
        proof {
            lemma_flag_positions();
        }
        self.has_flag(Flags::IsStore)
    }

    /// Whether the instruction transfers control.
    pub fn is_control(&self) -> (r: bool)
        ensures
            r == self@.is_control(),
            r == bit_set(self@.flags, 12),
    {
        proof {
            lemma_flag_positions();
        }
        self.has_flag(Flags::IsControl)
    }

    /// Whether the instruction is a call.
    pub fn is_call(&self) -> (r: bool)
        ensures
            r == bit_set(self@.flags, Flags::IsCall.spec_position()),
            r == bit_set(self@.flags, 17),
    {
        proof {
            lemma_flag_positions();
        }
        self.has_flag(Flags::IsCall)
    }

    /// Whether the instruction is a return.
    pub fn is_return(&self) -> (r: bool)
        ensures
            r == bit_set(self@.flags, Flags::IsReturn.spec_position()),
            r == bit_set(self@.flags, 18),
    {
        proof {
            lemma_flag_positions();
        }
        self.has_flag(Flags::IsReturn)
    }
}

impl InsnView {
    /// Whether the instruction transfers control.
    pub open spec fn is_control(self) -> bool {
        bit_set(self.flags, Flags::IsControl.spec_position())
    }
}

impl InsnAccess for Insn {
    closed spec fn spec_bits(&self) -> u64 {
        self.b
    }

    fn bits(&self) -> (r: u64) {
        self.b
    }
}

impl Insn {
    /// The instruction word that the accessors read is the one recorded.
    pub broadcast proof fn lemma_bits_view(i: &Insn)
        ensures
            #[trigger] i.spec_bits() == i@.bits,
    {
    }
}

} // verus!
