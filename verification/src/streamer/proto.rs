use vstd::prelude::*;

verus! {

/// The committed instruction of a trace message.
pub struct Inst {
    /// The instruction word.
    pub binary: u32,
    /// The mnemonic.
    pub mnemonic: String,
    /// The disassembly.
    pub disasm: String,
    /// The program counter.
    pub pc: u64,
    /// The symbol of the function the instruction belongs to, where known.
    pub symbol: Option<String>,
    /// The offset of the instruction from that symbol, where known.
    pub offset: Option<u64>,
    /// The flag word: one bit per property (see `Flags`).
    pub flags: u64,
}

/// The pipeline timestamps of a trace message.
pub struct Timestamp {
    /// The cycle in which the instruction committed.
    pub commit: u64,
}

/// The architectural registers an instruction reads and writes.
pub struct RegAccess {
    /// The registers read.
    pub srcs: Vec<u32>,
    /// The registers written.
    pub dsts: Vec<u32>,
}

/// One message of a micro-trace: a committed instruction, its timestamps and
/// its register accesses.
pub struct UtMsg {
    /// The instruction.
    pub inst: Inst,
    /// Its timestamps.
    pub timestamp: Timestamp,
    /// Its register accesses, where recorded.
    pub reg: Option<RegAccess>,
}

impl Inst {
    /// The symbol, or the empty string where there is none.
    pub open spec fn spec_symbol(&self) -> Seq<char> {
        match self.symbol {
            Some(s) => s@,
            None => Seq::empty(),
        }
    }
}

} // verus!
