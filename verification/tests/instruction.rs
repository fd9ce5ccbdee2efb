use utrace::instruction::accessor::{insn_length, InsnAccess};
use utrace::instruction::flag::Flags;
use utrace::instruction::Insn;
use utrace::streamer::proto::{Inst, RegAccess, Timestamp, UtMsg};

fn msg_with(binary: u32, flags: u64) -> UtMsg {
    UtMsg {
        inst: Inst {
            binary,
            mnemonic: "op".to_string(),
            disasm: "op x1, x2".to_string(),
            pc: 0x1000,
            symbol: Some("spmv".to_string()),
            offset: Some(12),
            flags,
        },
        timestamp: Timestamp { commit: 0 },
        reg: Some(RegAccess { srcs: vec![], dsts: vec![] }),
    }
}

fn insn(binary: u32) -> Insn {
    Insn::new(&msg_with(binary, 0))
}

#[test]
fn insn_keeps_message_fields() {
    let i = Insn::new(&msg_with(0x00500093, 1 << 6));
    assert_eq!(i.pc(), 0x1000);
    assert_eq!(i.mnemonic(), "op");
    assert_eq!(i.disasm(), "op x1, x2");
    assert_eq!(i.symbol(), Some(&"spmv".to_string()));
    assert_eq!(i.offset(), Some(12));
    assert_eq!(i.bits(), 0x00500093);
    assert!(i.is_load());
    assert!(!i.is_store());
    assert!(!i.is_control());
}

#[test]
fn insn_clone_is_equal() {
    let i = insn(0x00500093);
    let j = i.clone();
    assert_eq!(j.pc(), i.pc());
    assert_eq!(j.disasm(), i.disasm());
    assert_eq!(j.bits(), i.bits());
}

#[test]
fn flags_select_their_bit() {
    assert!(Flags::IsControl.contains_flag(1 << 12));
    assert!(!Flags::IsControl.contains_flag(1 << 11));
    assert!(Flags::IsNop.contains_flag(1));
    assert!(Flags::NumFlags.contains_flag(1 << 37));
    assert!(!Flags::NumFlags.contains_flag(u64::MAX >> 27));
    assert_eq!(Flags::IsReturn.position(), 18);
    let i = Insn::new(&msg_with(0, (1 << 17) | (1 << 18) | (1 << 12) | (1 << 7)));
    assert!(i.is_call());
    assert!(i.is_return());
    assert!(i.is_control());
    assert!(i.is_store());
    assert!(!i.is_load());
    assert!(i.has_flag(Flags::IsCall));
    assert!(!i.has_flag(Flags::IsAtomic));
}

#[test]
fn instruction_lengths() {
    assert_eq!(insn_length(0x0001), 2);
    assert_eq!(insn_length(0x0002), 2);
    assert_eq!(insn_length(0x0013), 4);
    assert_eq!(insn_length(0x001f), 6);
    assert_eq!(insn_length(0x003f), 8);
    assert_eq!(insn_length(0x007f), 8);
    assert_eq!(insn(0x00500093).length(), 4);
    assert_eq!(insn(0x4092).length(), 2);
}

#[test]
fn base_format_fields() {
    // addi x1, x0, 5
    let i = insn(0x00500093);
    assert_eq!(i.rd(), 1);
    assert_eq!(i.rs1(), 0);
    assert_eq!(i.i_imm(), 5);
    assert_eq!(i.rm(), 0);
    // sw x2, 8(x1)
    let s = insn(0x0020a423);
    assert_eq!(s.s_imm(), 8);
    assert_eq!(s.rs1(), 1);
    assert_eq!(s.rs2(), 2);
    // beq x1, x2, 16
    let b = insn(0x00208863);
    assert_eq!(b.sb_imm(), 16);
    // lui x5, 0x12345
    let u = insn(0x123452b7);
    assert_eq!(u.u_imm(), 0x12345000);
    assert_eq!(u.rd(), 5);
    // jal x1, 2048
    let j = insn(0x001000ef);
    assert_eq!(j.uj_imm(), 2048);
    // jal x0, 0xffe (all offset bits below the sign)
    let j2 = insn(0x7ff0006f);
    assert_eq!(j2.uj_imm(), 0xffe);
    // csrrw x0, mstatus, x1
    let c = insn(0x30009073);
    assert_eq!(c.csr(), 0x300);
    // slli x1, x1, 3
    let sh = insn(0x00309093);
    assert_eq!(sh.shamt(), 3);
    // an R4-type word whose rs3 field is 4
    let f = insn(0x203100c3);
    assert_eq!(f.rs3(), 4);
    assert_eq!(insn(0x0ff0000f).iorw(), 0xff);
    assert_eq!(insn(0x40000000).bs(), 1);
    assert_eq!(insn(0x00a00000).rcon(), 10);
}

#[test]
fn sign_helpers_on_clear_sign() {
    assert_eq!(<Insn as InsnAccess>::x(0xf0, 4, 4), 0xf);
    assert_eq!(<Insn as InsnAccess>::xs(0x70, 4, 4), 7);
    assert_eq!(<Insn as InsnAccess>::imm_sign(0x7fff_ffff), 0);
}

#[test]
fn compressed_fields() {
    // c.addi4spn x8, sp, 16
    assert_eq!(insn(0x0800).rvc_addi4spn_imm(), 16);
    // c.lwsp x1, 4(sp)
    let l = insn(0x4092);
    assert_eq!(l.rvc_lwsp_imm(), 4);
    assert_eq!(l.rvc_rd(), 1);
    assert_eq!(l.rvc_rs1(), 1);
    // c.j 2
    assert_eq!(insn(0xa009).rvc_j_imm(), 2);
    // c.li x10, 7
    let li = insn(0x451d);
    assert_eq!(li.rvc_imm(), 7);
    assert_eq!(li.rvc_rd(), 10);
    // c.addi16sp sp, 16 (nzimm[4] at bit 6)
    assert_eq!(insn(0x6141).rvc_addi16sp_imm(), 16);
    // c.ldsp x1, 8(sp)
    assert_eq!(insn(0x60a2).rvc_ldsp_imm(), 8);
    // c.swsp x1, 4(sp)
    let sw = insn(0xc206);
    assert_eq!(sw.rvc_swsp_imm(), 4);
    assert_eq!(sw.rvc_rs2(), 1);
    // c.sdsp x1, 8(sp)
    assert_eq!(insn(0xe406).rvc_sdsp_imm(), 8);
    // c.lw x9, 4(x10)
    let lw = insn(0x4144);
    assert_eq!(lw.rvc_lw_imm(), 4);
    assert_eq!(lw.rvc_rs1s(), 10);
    assert_eq!(lw.rvc_rs2s(), 9);
    // c.ld x9, 8(x10)
    assert_eq!(insn(0x6504).rvc_ld_imm(), 8);
    // c.beqz x8, 4
    assert_eq!(insn(0xc011).rvc_b_imm(), 4);
    assert_eq!(insn(0x1c00).rvc_simm3(), 7);
    assert_eq!(insn(0x1000).rvc_zimm(), 32);
    assert_eq!(insn(0x0060).rvc_lbimm(), 3);
    assert_eq!(insn(0x0020).rvc_lhimm(), 2);
    assert_eq!(insn(0x0380).rvc_r1sc(), 7);
    assert_eq!(insn(0x001c).rvc_r2sc(), 7);
    assert_eq!(insn(0x00f0).rvc_rlist(), 15);
    assert_eq!(insn(0x000c).rvc_spimm(), 48);
    assert_eq!(insn(0x03fc).rvc_index(), 255);
}

#[test]
fn vector_and_packed_fields() {
    // a vector word whose type field holds SEW code 2 (32 bits) and LMUL code 1
    let v = insn(0x01100057);
    assert_eq!(v.v_sew(), 32);
    assert_eq!(v.v_lmul(), 1);
    assert_eq!(v.v_frac_lmul(), 0);
    assert_eq!(insn(0x02000000).v_vm(), 1);
    assert_eq!(insn(0x04000000).v_wd(), 1);
    assert_eq!(insn(0x04000000).v_vta(), 1);
    assert_eq!(insn(0x08000000).v_vma(), 1);
    assert_eq!(insn(0x10000000).v_mew(), 1);
    assert_eq!(insn(0x60000000).v_nf(), 3);
    assert_eq!(insn(0x00078000).v_simm5(), 15);
    assert_eq!(insn(0x000f8000).v_zimm5(), 31);
    assert_eq!(insn(0x3ff00000).v_zimm10(), 0x3ff);
    assert_eq!(insn(0x7ff00000).v_zimm11(), 0x7ff);
    assert_eq!(insn(0x00006000).v_width(), 6);
    assert_eq!(insn(0x0c000000).v_mop(), 3);
    assert_eq!(insn(0x01f00000).v_lumop(), 31);
    assert_eq!(insn(0x01f00000).v_sumop(), 31);
    assert_eq!(insn(0x040f8000).v_zimm6(), 63);
    assert_eq!(insn(0x03f00000).p_imm2(), 3);
    assert_eq!(insn(0x03f00000).p_imm3(), 7);
    assert_eq!(insn(0x03f00000).p_imm4(), 15);
    assert_eq!(insn(0x03f00000).p_imm5(), 31);
    assert_eq!(insn(0x03f00000).p_imm6(), 63);
}
