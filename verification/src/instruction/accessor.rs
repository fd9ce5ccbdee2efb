use vstd::prelude::*;

verus! {

/// The `len`-bit field of `word` whose lowest bit is bit `lo`, as a natural number.
pub open spec fn field(word: u64, lo: nat, len: nat) -> nat {
    (word as nat / vstd::arithmetic::power2::pow2(lo)) % vstd::arithmetic::power2::pow2(len)
}

/// Whether bit `pos` of `word` is set.
pub open spec fn bit_set(word: u64, pos: nat) -> bool {
    field(word, pos, 1) == 1
}

/// A field is smaller than two to the power of its width.
pub proof fn lemma_field_bound(word: u64, lo: nat, len: nat)
    ensures
        field(word, lo, len) < vstd::arithmetic::power2::pow2(len),
{
    vstd::arithmetic::power2::lemma_pow2_pos(len);
}

/// Shifting right and masking extracts the field.
pub proof fn lemma_extract(word: u64, lo: u32, len: u32)
    requires
        lo < 64,
        len < 64,
    ensures
        (word >> lo) & (((1u64 << len) - 1) as u64) == field(word, lo as nat, len as nat),
        1u64 << len == vstd::arithmetic::power2::pow2(len as nat),
        vstd::arithmetic::power2::pow2(len as nat) >= 1,
{
    vstd::arithmetic::power2::lemma_pow2_pos(len as nat);
    vstd::bits::lemma_u64_shr_is_div(word, lo as u64);
    vstd::bits::lemma_u64_pow2_no_overflow(len as nat);
    vstd::bits::lemma_u64_shl_is_mul(1u64, len as u64);
    vstd::bits::lemma_u64_low_bits_mask_is_mod(word >> lo, len as nat);
    assert(vstd::bits::low_bits_mask(len as nat) == vstd::arithmetic::power2::pow2(len as nat) - 1);
}

/// Shifting a field value left multiplies it by a power of two, without overflow.
pub proof fn lemma_shift_field(v: u64, len: nat, k: u64)
    requires
        v < vstd::arithmetic::power2::pow2(len),
        len + k < 64,
    ensures
        v << k == v * vstd::arithmetic::power2::pow2(k as nat),
        v * vstd::arithmetic::power2::pow2(k as nat) < vstd::arithmetic::power2::pow2(len + k as nat),
{
    vstd::arithmetic::power2::lemma_pow2_adds(len, k as nat);
    vstd::arithmetic::power2::lemma_pow2_pos(k as nat);
    vstd::arithmetic::mul::lemma_mul_strict_inequality(v as int, vstd::arithmetic::power2::pow2(len) as int, vstd::arithmetic::power2::pow2(k as nat) as int);
    vstd::bits::lemma_u64_pow2_no_overflow(len + k as nat);
    vstd::bits::lemma_u64_shl_is_mul(v, k);
}

#[verifier::rlimit(100)]
proof fn lemma_sign_extend_bv(b: u64, lo: u32, len: u32, s: u32, t: u32, top: u32)
    by (bit_vector)
    requires
        1 <= len < 64,
        lo + len <= 64,
        s == 64 - lo - len,
        t == 64 - len,
        top == lo + len - 1,
        (b >> top) & 1u64 == 0,
    ensures
        (((b as i64) << s) >> t) >= 0,
        (((b as i64) << s) >> t) as u64 == (b >> lo) & (((1u64 << len) - 1) as u64),
{
}

/// Sign extension of a field whose top bit is clear gives the field itself.
pub proof fn lemma_sign_extend(b: u64, lo: u32, len: u32)
    requires
        1 <= len < 64,
        lo + len <= 64,
        !bit_set(b, (lo + len - 1) as nat),
    ensures
        (((b as i64) << ((64 - lo - len) as u32)) >> ((64 - len) as u32)) >= 0,
        (((b as i64) << ((64 - lo - len) as u32)) >> ((64 - len) as u32)) as u64 == field(b, lo as nat, len as nat),
{
    lemma_extract(b, (lo + len - 1) as u32, 1);
    lemma_field_bound(b, (lo + len - 1) as nat, 1);
    vstd::arithmetic::power2::lemma2_to64();
    assert((((1u64 << 1u32) - 1) as u64) == 1u64) by (bit_vector);
    lemma_sign_extend_bv(b, lo, len, (64 - lo - len) as u32, (64 - len) as u32, (lo + len - 1) as u32);
    lemma_extract(b, lo, len);
}

proof fn lemma_top_bit_bv(b: u64)
    by (bit_vector)
    requires
        (b >> 63u32) & 1u64 == 0,
    ensures
        (((b as i64) << 0u32) >> 0u32) >= 0,
        (((b as i64) << 0u32) >> 0u32) as u64 == b,
{
}

/// Sign extension of a whole word whose top bit is clear gives the word itself.
pub proof fn lemma_sign_extend_whole(b: u64)
    requires
        !bit_set(b, 63),
    ensures
        (((b as i64) << 0u32) >> 0u32) >= 0,
        (((b as i64) << 0u32) >> 0u32) as u64 == field(b, 0, 64),
{
    lemma_extract(b, 63, 1);
    lemma_field_bound(b, 63, 1);
    vstd::arithmetic::power2::lemma2_to64();
    assert((((1u64 << 1u32) - 1) as u64) == 1u64) by (bit_vector);
    lemma_top_bit_bv(b);
    vstd::arithmetic::power2::lemma2_to64_rest();
    assert(field(b, 0, 64) == b);
}

/// The length in bytes of an instruction, read from the low bits of its first parcel.
pub open spec fn spec_insn_length(x: u64) -> i32 {
    if x % 4 <= 2 {
        2
    } else if x % 32 <= 30 {
        4
    } else if x % 64 <= 62 {
        6
    } else {
        8
    }
}

/// The length in bytes of the instruction whose encoding starts with `x`.
pub fn insn_length(x: u64) -> (r: i32)
    ensures
        r == spec_insn_length(x),
        r == 2 <==> (x & 3) != 3,
{
    proof {
        lemma_insn_length_encoding(x);
    }
    let a = x & 0x03;
    let b = x & 0x1f;
    let c = x & 0x3f;
    assert(a == x % 4 && b == x % 32 && c == x % 64) by (bit_vector)
        requires
            a == x & 0x03,
            b == x & 0x1f,
            c == x & 0x3f,
    ;
    match (a, b, c) {
        (0..=2, _, _) => 2,
        (_, 0..=30, _) => 4,
        (_, _, 0..=62) => 6,
        _ => 8,
    }
}

/// The RISC-V length encoding: an instruction whose two lowest bits are not both set
/// is a two-byte compressed one; one with both set and bits 2 to 4 not all set takes
/// four bytes; one with bits 0 to 4 set and bit 5 clear takes six; one with bits 0
/// to 5 set, eight. The length is one of these four, and it is two exactly for the
/// compressed encodings.
pub proof fn lemma_insn_length_encoding(x: u64)
    ensures
        (x & 3) != 3 ==> spec_insn_length(x) == 2,
        (x & 3) == 3 && (x & 0x1c) != 0x1c ==> spec_insn_length(x) == 4,
        (x & 0x1f) == 0x1f && (x & 0x20) == 0 ==> spec_insn_length(x) == 6,
        (x & 0x3f) == 0x3f ==> spec_insn_length(x) == 8,
        spec_insn_length(x) == 2 <==> (x & 3) != 3,
        spec_insn_length(x) == 2 || spec_insn_length(x) == 4 || spec_insn_length(x) == 6
            || spec_insn_length(x) == 8,
{
    assert((x & 3) == x % 4 && (x & 0x1f) == x % 32 && (x & 0x3f) == x % 64) by (bit_vector);
    assert(((x & 3) == 3 && (x & 0x1c) != 0x1c) ==> x % 32 != 31) by (bit_vector);
    assert(((x & 0x1f) == 0x1f && (x & 0x20) == 0) ==> (x % 4 == 3 && x % 32 == 31 && x % 64 != 63)) by (bit_vector);
    assert((x & 0x3f) == 0x3f ==> (x % 4 == 3 && x % 32 == 31 && x % 64 == 63)) by (bit_vector);
}

/// Read access to the bit fields of an instruction word.
///
/// An implementor supplies the word; the fields of the RISC-V base, compressed,
/// vector and packed-SIMD encodings are read from it. A signed field is read by
/// sign extension, and the value is then converted to an unsigned number, which
/// succeeds only for a field whose sign bit is clear: the signed accessors require
/// that bit to be clear.
pub trait InsnAccess {
    /// The instruction word.
    spec fn spec_bits(&self) -> u64;

    /// The instruction word.
    fn bits(&self) -> (r: u64)
        ensures
            r == self.spec_bits(),
    ;

    /// The `len`-bit field of `b` whose lowest bit is bit `lo`.
    fn x(b: u64, lo: u32, len: u32) -> (r: u64)
        requires
            lo < 64,
            len < 64,
        ensures
            r == field(b, lo as nat, len as nat),
    {
        proof {
            lemma_extract(b, lo, len);
        }
        (b >> lo) & ((1u64 << len) - 1)
    }

    /// The sign-extended `len`-bit field of `b` whose lowest bit is bit `lo`, as an
    /// unsigned number: defined where the field's sign bit is clear.
    fn xs(b: u64, lo: u32, len: u32) -> (r: u64)
        requires
            1 <= len,
            lo + len <= 64,
            !bit_set(b, (lo + len - 1) as nat),
        ensures
            r == field(b, lo as nat, len as nat),
    {
        proof {
            if len < 64 {
                lemma_sign_extend(b, lo, len);
            } else {
                lemma_sign_extend_whole(b);
            }
        }
        (((b as i64) << (64 - lo - len)) >> (64 - len)) as u64
    }

    /// The sign bit of an instruction word, sign-extended: defined where it is clear.
    fn imm_sign(b: u64) -> (r: u64)
        requires
            !bit_set(b, 31),
        ensures
            r == 0,
    {
        proof {
            vstd::arithmetic::power2::lemma2_to64();
            lemma_field_bound(b, 31, 1);
        }
        Self::xs(b, 31, 1)
    }

    /// The length in bytes of the instruction.
    fn length(&self) -> (r: i32)
        ensures
            r == spec_insn_length(self.spec_bits()),
    {
        insn_length(self.bits())
    }

    /// The I-type immediate.
    fn i_imm(&self) -> (r: i64)
        requires
            !bit_set(self.spec_bits(), 31),
        ensures
            r == field(self.spec_bits(), 20, 12),
    {
        proof {
            vstd::arithmetic::power2::lemma2_to64();
            lemma_field_bound(self.spec_bits(), 20, 12);
        }
        Self::xs(self.bits(), 20, 12) as i64
    }

    /// The shift amount of a shift-immediate instruction.
    fn shamt(&self) -> (r: i64)
        ensures
            r == field(self.spec_bits(), 20, 6),
    {
        proof {
            vstd::arithmetic::power2::lemma2_to64();
            lemma_field_bound(self.spec_bits(), 20, 6);
        }
        Self::x(self.bits(), 20, 6) as i64
    }

    /// The S-type immediate.
    fn s_imm(&self) -> (r: i64)
        requires
            !bit_set(self.spec_bits(), 31),
        ensures
            r == field(self.spec_bits(), 7, 5) + 32 * field(self.spec_bits(), 25, 7),
    {
        let b = self.bits();
        let lo = Self::x(b, 7, 5);
        let hi = Self::xs(b, 25, 7);
        proof {
            vstd::arithmetic::power2::lemma2_to64();
            lemma_field_bound(b, 7, 5);
            lemma_field_bound(b, 25, 7);
            lemma_shift_field(hi, 7, 5);
        }
        (lo + (hi << 5u64)) as i64
    }

    /// The SB-type (branch) immediate.
    fn sb_imm(&self) -> (r: i64)
        requires
            !bit_set(self.spec_bits(), 31),
        ensures
            r == 2 * field(self.spec_bits(), 8, 4) + 32 * field(self.spec_bits(), 25, 6) + 2048 * field(self.spec_bits(), 7, 1),
    {
        let b = self.bits();
        let t0 = Self::x(b, 8, 4);
        let t1 = Self::x(b, 25, 6);
        let t2 = Self::x(b, 7, 1);
        let t3 = Self::imm_sign(b);
        proof {
            vstd::arithmetic::power2::lemma2_to64();
            lemma_field_bound(b, 8, 4);
            lemma_shift_field(t0, 4, 1);
            lemma_field_bound(b, 25, 6);
            lemma_shift_field(t1, 6, 5);
            lemma_field_bound(b, 7, 1);
            lemma_shift_field(t2, 1, 11);
            lemma_shift_field(t3, 1, 12);
        }
        ((t0 << 1u64) + (t1 << 5u64) + (t2 << 11u64) + (t3 << 12u64)) as i64
    }

    /// The U-type immediate.
    fn u_imm(&self) -> (r: i64)
        requires
            !bit_set(self.spec_bits(), 31),
        ensures
            r == 4096 * field(self.spec_bits(), 12, 20),
    {
        let b = self.bits();
        let t0 = Self::xs(b, 12, 20);
        proof {
            vstd::arithmetic::power2::lemma2_to64();
            lemma_field_bound(b, 12, 20);
            lemma_shift_field(t0, 20, 12);
        }
        ((t0 << 12u64)) as i64
    }

    /// The UJ-type (jump) immediate.
    fn uj_imm(&self) -> (r: i64)
        requires
            !bit_set(self.spec_bits(), 31),
        ensures
            r == 2 * field(self.spec_bits(), 21, 10) + 2048 * field(self.spec_bits(), 20, 1) + 4096 * field(self.spec_bits(), 12, 8),
    {
        let b = self.bits();
        let t0 = Self::x(b, 21, 10);
        let t1 = Self::x(b, 20, 1);
        let t2 = Self::x(b, 12, 8);
        let t3 = Self::imm_sign(b);
        proof {
            vstd::arithmetic::power2::lemma2_to64();
            lemma_field_bound(b, 21, 10);
            lemma_shift_field(t0, 10, 1);
            lemma_field_bound(b, 20, 1);
            lemma_shift_field(t1, 1, 11);
            lemma_field_bound(b, 12, 8);
            lemma_shift_field(t2, 8, 12);
            lemma_shift_field(t3, 1, 20);
        }
        ((t0 << 1u64) + (t1 << 11u64) + (t2 << 12u64) + (t3 << 20u64)) as i64
    }

    /// The destination register.
    fn rd(&self) -> (r: u64)
        ensures
            r == field(self.spec_bits(), 7, 5),
    {
        Self::x(self.bits(), 7, 5)
    }

    /// The first source register.
    fn rs1(&self) -> (r: u64)
        ensures
            r == field(self.spec_bits(), 15, 5),
    {
        Self::x(self.bits(), 15, 5)
    }

    /// The second source register.
    fn rs2(&self) -> (r: u64)
        ensures
            r == field(self.spec_bits(), 20, 5),
    {
        Self::x(self.bits(), 20, 5)
    }

    /// The third source register.
    fn rs3(&self) -> (r: u64)
        ensures
            r == field(self.spec_bits(), 27, 5),
    {
        Self::x(self.bits(), 27, 5)
    }

    /// The rounding mode.
    fn rm(&self) -> (r: u64)
        ensures
            r == field(self.spec_bits(), 12, 3),
    {
        Self::x(self.bits(), 12, 3)
    }

    /// The control and status register number.
    fn csr(&self) -> (r: u64)
        ensures
            r == field(self.spec_bits(), 20, 12),
    {
        Self::x(self.bits(), 20, 12)
    }

    /// The predecessor and successor sets of a fence.
    fn iorw(&self) -> (r: u64)
        ensures
            r == field(self.spec_bits(), 20, 8),
    {
        Self::x(self.bits(), 20, 8)
    }

    /// The byte select of a scalar cryptography instruction.
    fn bs(&self) -> (r: u64)
        ensures
            r == field(self.spec_bits(), 30, 2),
    {
        Self::x(self.bits(), 30, 2)
    }

    /// The round constant of a scalar cryptography instruction.
    fn rcon(&self) -> (r: u64)
        ensures
            r == field(self.spec_bits(), 20, 4),
    {
        Self::x(self.bits(), 20, 4)
    }

    /// The immediate of a compressed instruction.
    fn rvc_imm(&self) -> (r: i64)
        requires
            !bit_set(self.spec_bits(), 12),
        ensures
            r == field(self.spec_bits(), 2, 5),
    {
        let b = self.bits();
        let t0 = Self::x(b, 2, 5);
        let t1 = Self::xs(b, 12, 1);
        proof {
            vstd::arithmetic::power2::lemma2_to64();
            lemma_field_bound(b, 2, 5);
            lemma_field_bound(b, 12, 1);
            lemma_shift_field(t1, 1, 5);
        }
        (t0 + (t1 << 5u64)) as i64
    }

    /// The unsigned immediate of a compressed instruction.
    fn rvc_zimm(&self) -> (r: i64)
        ensures
            r == field(self.spec_bits(), 2, 5) + 32 * field(self.spec_bits(), 12, 1),
    {
        let b = self.bits();
        let t0 = Self::x(b, 2, 5);
        let t1 = Self::x(b, 12, 1);
        proof {
            vstd::arithmetic::power2::lemma2_to64();
            lemma_field_bound(b, 2, 5);
            lemma_field_bound(b, 12, 1);
            lemma_shift_field(t1, 1, 5);
        }
        (t0 + (t1 << 5u64)) as i64
    }

    /// The immediate of C.ADDI4SPN.
    fn rvc_addi4spn_imm(&self) -> (r: i64)
        ensures
            r == 4 * field(self.spec_bits(), 6, 1) + 8 * field(self.spec_bits(), 5, 1) + 16 * field(self.spec_bits(), 11, 2) + 64 * field(self.spec_bits(), 7, 4),
    {
        let b = self.bits();
        let t0 = Self::x(b, 6, 1);
        let t1 = Self::x(b, 5, 1);
        let t2 = Self::x(b, 11, 2);
        let t3 = Self::x(b, 7, 4);
        proof {
            vstd::arithmetic::power2::lemma2_to64();
            lemma_field_bound(b, 6, 1);
            lemma_shift_field(t0, 1, 2);
            lemma_field_bound(b, 5, 1);
            lemma_shift_field(t1, 1, 3);
            lemma_field_bound(b, 11, 2);
            lemma_shift_field(t2, 2, 4);
            lemma_field_bound(b, 7, 4);
            lemma_shift_field(t3, 4, 6);
        }
        ((t0 << 2u64) + (t1 << 3u64) + (t2 << 4u64) + (t3 << 6u64)) as i64
    }

    /// The immediate of C.ADDI16SP.
    fn rvc_addi16sp_imm(&self) -> (r: i64)
        requires
            !bit_set(self.spec_bits(), 12),
        ensures
            r == 16 * field(self.spec_bits(), 6, 1) + 32 * field(self.spec_bits(), 2, 1) + 64 * field(self.spec_bits(), 5, 1) + 128 * field(self.spec_bits(), 3, 2),
    {
        let b = self.bits();
        let t0 = Self::x(b, 6, 1);
        let t1 = Self::x(b, 2, 1);
        let t2 = Self::x(b, 5, 1);
        let t3 = Self::x(b, 3, 2);
        let t4 = Self::xs(b, 12, 1);
        proof {
            vstd::arithmetic::power2::lemma2_to64();
            lemma_field_bound(b, 6, 1);
            lemma_shift_field(t0, 1, 4);
            lemma_field_bound(b, 2, 1);
            lemma_shift_field(t1, 1, 5);
            lemma_field_bound(b, 5, 1);
            lemma_shift_field(t2, 1, 6);
            lemma_field_bound(b, 3, 2);
            lemma_shift_field(t3, 2, 7);
            lemma_field_bound(b, 12, 1);
            lemma_shift_field(t4, 1, 9);
        }
        ((t0 << 4u64) + (t1 << 5u64) + (t2 << 6u64) + (t3 << 7u64) + (t4 << 9u64)) as i64
    }

    /// The offset of C.LWSP.
    fn rvc_lwsp_imm(&self) -> (r: i64)
        ensures
            r == 4 * field(self.spec_bits(), 4, 3) + 32 * field(self.spec_bits(), 12, 1) + 64 * field(self.spec_bits(), 2, 2),
    {
        let b = self.bits();
        let t0 = Self::x(b, 4, 3);
        let t1 = Self::x(b, 12, 1);
        let t2 = Self::x(b, 2, 2);
        proof {
            vstd::arithmetic::power2::lemma2_to64();
            lemma_field_bound(b, 4, 3);
            lemma_shift_field(t0, 3, 2);
            lemma_field_bound(b, 12, 1);
            lemma_shift_field(t1, 1, 5);
            lemma_field_bound(b, 2, 2);
            lemma_shift_field(t2, 2, 6);
        }
        ((t0 << 2u64) + (t1 << 5u64) + (t2 << 6u64)) as i64
    }

    /// The offset of C.LDSP.
    fn rvc_ldsp_imm(&self) -> (r: i64)
        ensures
            r == 8 * field(self.spec_bits(), 5, 2) + 32 * field(self.spec_bits(), 12, 1) + 64 * field(self.spec_bits(), 2, 3),
    {
        let b = self.bits();
        let t0 = Self::x(b, 5, 2);
        let t1 = Self::x(b, 12, 1);
        let t2 = Self::x(b, 2, 3);
        proof {
            vstd::arithmetic::power2::lemma2_to64();
            lemma_field_bound(b, 5, 2);
            lemma_shift_field(t0, 2, 3);
            lemma_field_bound(b, 12, 1);
            lemma_shift_field(t1, 1, 5);
            lemma_field_bound(b, 2, 3);
            lemma_shift_field(t2, 3, 6);
        }
        ((t0 << 3u64) + (t1 << 5u64) + (t2 << 6u64)) as i64
    }

    /// The offset of C.SWSP.
    fn rvc_swsp_imm(&self) -> (r: i64)
        ensures
            r == 4 * field(self.spec_bits(), 9, 4) + 64 * field(self.spec_bits(), 7, 2),
    {
        let b = self.bits();
        let t0 = Self::x(b, 9, 4);
        let t1 = Self::x(b, 7, 2);
        proof {
            vstd::arithmetic::power2::lemma2_to64();
            lemma_field_bound(b, 9, 4);
            lemma_shift_field(t0, 4, 2);
            lemma_field_bound(b, 7, 2);
            lemma_shift_field(t1, 2, 6);
        }
        ((t0 << 2u64) + (t1 << 6u64)) as i64
    }

    /// The offset of C.SDSP.
    fn rvc_sdsp_imm(&self) -> (r: i64)
        ensures
            r == 8 * field(self.spec_bits(), 10, 3) + 64 * field(self.spec_bits(), 7, 3),
    {
        let b = self.bits();
        let t0 = Self::x(b, 10, 3);
        let t1 = Self::x(b, 7, 3);
        proof {
            vstd::arithmetic::power2::lemma2_to64();
            lemma_field_bound(b, 10, 3);
            lemma_shift_field(t0, 3, 3);
            lemma_field_bound(b, 7, 3);
            lemma_shift_field(t1, 3, 6);
        }
        ((t0 << 3u64) + (t1 << 6u64)) as i64
    }

    /// The offset of C.LW.
    fn rvc_lw_imm(&self) -> (r: i64)
        ensures
            r == 4 * field(self.spec_bits(), 6, 1) + 8 * field(self.spec_bits(), 10, 3) + 64 * field(self.spec_bits(), 5, 1),
    {
        let b = self.bits();
        let t0 = Self::x(b, 6, 1);
        let t1 = Self::x(b, 10, 3);
        let t2 = Self::x(b, 5, 1);
        proof {
            vstd::arithmetic::power2::lemma2_to64();
            lemma_field_bound(b, 6, 1);
            lemma_shift_field(t0, 1, 2);
            lemma_field_bound(b, 10, 3);
            lemma_shift_field(t1, 3, 3);
            lemma_field_bound(b, 5, 1);
            lemma_shift_field(t2, 1, 6);
        }
        ((t0 << 2u64) + (t1 << 3u64) + (t2 << 6u64)) as i64
    }

    /// The offset of C.LD.
    fn rvc_ld_imm(&self) -> (r: i64)
        ensures
            r == 8 * field(self.spec_bits(), 10, 3) + 64 * field(self.spec_bits(), 5, 2),
    {
        let b = self.bits();
        let t0 = Self::x(b, 10, 3);
        let t1 = Self::x(b, 5, 2);
        proof {
            vstd::arithmetic::power2::lemma2_to64();
            lemma_field_bound(b, 10, 3);
            lemma_shift_field(t0, 3, 3);
            lemma_field_bound(b, 5, 2);
            lemma_shift_field(t1, 2, 6);
        }
        ((t0 << 3u64) + (t1 << 6u64)) as i64
    }

    /// The offset of C.J.
    fn rvc_j_imm(&self) -> (r: i64)
        requires
            !bit_set(self.spec_bits(), 12),
        ensures
            r == 2 * field(self.spec_bits(), 3, 3) + 16 * field(self.spec_bits(), 11, 1) + 32 * field(self.spec_bits(), 2, 1) + 64 * field(self.spec_bits(), 7, 1) + 128 * field(self.spec_bits(), 6, 1) + 256 * field(self.spec_bits(), 9, 2) + 1024 * field(self.spec_bits(), 8, 1),
    {
        let b = self.bits();
        let t0 = Self::x(b, 3, 3);
        let t1 = Self::x(b, 11, 1);
        let t2 = Self::x(b, 2, 1);
        let t3 = Self::x(b, 7, 1);
        let t4 = Self::x(b, 6, 1);
        let t5 = Self::x(b, 9, 2);
        let t6 = Self::x(b, 8, 1);
        let t7 = Self::xs(b, 12, 1);
        proof {
            vstd::arithmetic::power2::lemma2_to64();
            lemma_field_bound(b, 3, 3);
            lemma_shift_field(t0, 3, 1);
            lemma_field_bound(b, 11, 1);
            lemma_shift_field(t1, 1, 4);
            lemma_field_bound(b, 2, 1);
            lemma_shift_field(t2, 1, 5);
            lemma_field_bound(b, 7, 1);
            lemma_shift_field(t3, 1, 6);
            lemma_field_bound(b, 6, 1);
            lemma_shift_field(t4, 1, 7);
            lemma_field_bound(b, 9, 2);
            lemma_shift_field(t5, 2, 8);
            lemma_field_bound(b, 8, 1);
            lemma_shift_field(t6, 1, 10);
            lemma_field_bound(b, 12, 1);
            lemma_shift_field(t7, 1, 11);
        }
        ((t0 << 1u64) + (t1 << 4u64) + (t2 << 5u64) + (t3 << 6u64) + (t4 << 7u64) + (t5 << 8u64) + (t6 << 10u64) + (t7 << 11u64)) as i64
    }

    /// The offset of C.BEQZ and C.BNEZ.
    fn rvc_b_imm(&self) -> (r: i64)
        requires
            !bit_set(self.spec_bits(), 12),
        ensures
            r == 2 * field(self.spec_bits(), 3, 2) + 8 * field(self.spec_bits(), 10, 2) + 32 * field(self.spec_bits(), 2, 1) + 64 * field(self.spec_bits(), 5, 2),
    {
        let b = self.bits();
        let t0 = Self::x(b, 3, 2);
        let t1 = Self::x(b, 10, 2);
        let t2 = Self::x(b, 2, 1);
        let t3 = Self::x(b, 5, 2);
        let t4 = Self::xs(b, 12, 1);
        proof {
            vstd::arithmetic::power2::lemma2_to64();
            lemma_field_bound(b, 3, 2);
            lemma_shift_field(t0, 2, 1);
            lemma_field_bound(b, 10, 2);
            lemma_shift_field(t1, 2, 3);
            lemma_field_bound(b, 2, 1);
            lemma_shift_field(t2, 1, 5);
            lemma_field_bound(b, 5, 2);
            lemma_shift_field(t3, 2, 6);
            lemma_field_bound(b, 12, 1);
            lemma_shift_field(t4, 1, 8);
        }
        ((t0 << 1u64) + (t1 << 3u64) + (t2 << 5u64) + (t3 << 6u64) + (t4 << 8u64)) as i64
    }

    /// The three-bit immediate of a compressed instruction.
    fn rvc_simm3(&self) -> (r: i64)
        ensures
            r == field(self.spec_bits(), 10, 3),
    {
        let b = self.bits();
        let t0 = Self::x(b, 10, 3);
        proof {
            vstd::arithmetic::power2::lemma2_to64();
            lemma_field_bound(b, 10, 3);
        }
        (t0) as i64
    }

    /// The destination register of a compressed instruction.
    fn rvc_rd(&self) -> (r: u64)
        ensures
            r == field(self.spec_bits(), 7, 5),
    {
        self.rd()
    }

    /// The first source register of a compressed instruction, read where `rd` stands.
    fn rvc_rs1(&self) -> (r: u64)
        ensures
            r == field(self.spec_bits(), 7, 5),
    {
        self.rd()
    }

    /// The second source register of a compressed instruction.
    fn rvc_rs2(&self) -> (r: u64)
        ensures
            r == field(self.spec_bits(), 2, 5),
    {
        Self::x(self.bits(), 2, 5)
    }

    /// The first source register of a compressed instruction in its three-bit form.
    fn rvc_rs1s(&self) -> (r: u64)
        ensures
            r == 8 + field(self.spec_bits(), 7, 3),
    {
        let t = Self::x(self.bits(), 7, 3);
        proof {
            vstd::arithmetic::power2::lemma2_to64();
            lemma_field_bound(self.spec_bits(), 7, 3);
        }
        8 + t
    }

    /// The second source register of a compressed instruction in its three-bit form.
    fn rvc_rs2s(&self) -> (r: u64)
        ensures
            r == 8 + field(self.spec_bits(), 2, 3),
    {
        let t = Self::x(self.bits(), 2, 3);
        proof {
            vstd::arithmetic::power2::lemma2_to64();
            lemma_field_bound(self.spec_bits(), 2, 3);
        }
        8 + t
    }

    /// The byte offset of a compressed byte load.
    fn rvc_lbimm(&self) -> (r: u64)
        ensures
            r == 2 * field(self.spec_bits(), 5, 1) + field(self.spec_bits(), 6, 1),
    {
        let b = self.bits();
        let t0 = Self::x(b, 5, 1);
        let t1 = Self::x(b, 6, 1);
        proof {
            vstd::arithmetic::power2::lemma2_to64();
            lemma_field_bound(b, 5, 1);
            lemma_shift_field(t0, 1, 1);
            lemma_field_bound(b, 6, 1);
        }
        (t0 << 1u64) + t1
    }

    /// The offset of a compressed half-word load.
    fn rvc_lhimm(&self) -> (r: u64)
        ensures
            r == 2 * field(self.spec_bits(), 5, 1),
    {
        let b = self.bits();
        let t0 = Self::x(b, 5, 1);
        proof {
            vstd::arithmetic::power2::lemma2_to64();
            lemma_field_bound(b, 5, 1);
            lemma_shift_field(t0, 1, 1);
        }
        (t0 << 1u64)
    }

    /// The first register of a compressed register-pair move.
    fn rvc_r1sc(&self) -> (r: u64)
        ensures
            r == field(self.spec_bits(), 7, 3),
    {
        Self::x(self.bits(), 7, 3)
    }

    /// The second register of a compressed register-pair move.
    fn rvc_r2sc(&self) -> (r: u64)
        ensures
            r == field(self.spec_bits(), 2, 3),
    {
        Self::x(self.bits(), 2, 3)
    }

    /// The register list of a compressed push or pop.
    fn rvc_rlist(&self) -> (r: u64)
        ensures
            r == field(self.spec_bits(), 4, 4),
    {
        Self::x(self.bits(), 4, 4)
    }

    /// The stack adjustment of a compressed push or pop.
    fn rvc_spimm(&self) -> (r: u64)
        ensures
            r == 16 * field(self.spec_bits(), 2, 2),
    {
        let b = self.bits();
        let t0 = Self::x(b, 2, 2);
        proof {
            vstd::arithmetic::power2::lemma2_to64();
            lemma_field_bound(b, 2, 2);
            lemma_shift_field(t0, 2, 4);
        }
        (t0 << 4u64)
    }

    /// The table index of a compressed table jump.
    fn rvc_index(&self) -> (r: u64)
        ensures
            r == field(self.spec_bits(), 2, 8),
    {
        Self::x(self.bits(), 2, 8)
    }

    /// The vector mask bit.
    fn v_vm(&self) -> (r: u64)
        ensures
            r == field(self.spec_bits(), 25, 1),
    {
        Self::x(self.bits(), 25, 1)
    }

    /// The vector write-destination bit.
    fn v_wd(&self) -> (r: u64)
        ensures
            r == field(self.spec_bits(), 26, 1),
    {
        Self::x(self.bits(), 26, 1)
    }

    /// The number of fields of a vector segment access.
    fn v_nf(&self) -> (r: u64)
        ensures
            r == field(self.spec_bits(), 29, 3),
    {
        Self::x(self.bits(), 29, 3)
    }

    /// The five-bit signed immediate of a vector instruction.
    fn v_simm5(&self) -> (r: i64)
        requires
            !bit_set(self.spec_bits(), 19),
        ensures
            r == field(self.spec_bits(), 15, 5),
    {
        let b = self.bits();
        let t0 = Self::xs(b, 15, 5);
        proof {
            vstd::arithmetic::power2::lemma2_to64();
            lemma_field_bound(b, 15, 5);
        }
        (t0) as i64
    }

    /// The five-bit unsigned immediate of a vector instruction.
    fn v_zimm5(&self) -> (r: u64)
        ensures
            r == field(self.spec_bits(), 15, 5),
    {
        Self::x(self.bits(), 15, 5)
    }

    /// The ten-bit immediate of VSETIVLI.
    fn v_zimm10(&self) -> (r: u64)
        ensures
            r == field(self.spec_bits(), 20, 10),
    {
        Self::x(self.bits(), 20, 10)
    }

    /// The eleven-bit immediate of VSETVLI.
    fn v_zimm11(&self) -> (r: u64)
        ensures
            r == field(self.spec_bits(), 20, 11),
    {
        Self::x(self.bits(), 20, 11)
    }

    /// The vector register group multiplier.
    fn v_lmul(&self) -> (r: u64)
        ensures
            r == field(self.spec_bits(), 20, 2),
    {
        Self::x(self.bits(), 20, 2)
    }

    /// Whether the vector register group multiplier is a fraction.
    fn v_frac_lmul(&self) -> (r: u64)
        ensures
            r == field(self.spec_bits(), 22, 1),
    {
        Self::x(self.bits(), 22, 1)
    }

    /// The selected element width in bits.
    fn v_sew(&self) -> (r: u64)
        ensures
            r == vstd::arithmetic::power2::pow2(field(self.spec_bits(), 23, 3) + 3),
    {
        let t = Self::x(self.bits(), 23, 3);
        proof {
            vstd::arithmetic::power2::lemma2_to64();
            lemma_field_bound(self.spec_bits(), 23, 3);
            lemma_shift_field(1u64, 1, (t + 3) as u64);
        }
        1u64 << (t + 3)
    }

    /// The width of a vector memory access.
    fn v_width(&self) -> (r: u64)
        ensures
            r == field(self.spec_bits(), 12, 3),
    {
        Self::x(self.bits(), 12, 3)
    }

    /// The addressing mode of a vector memory access.
    fn v_mop(&self) -> (r: u64)
        ensures
            r == field(self.spec_bits(), 26, 2),
    {
        Self::x(self.bits(), 26, 2)
    }

    /// The unit-stride mode of a vector load.
    fn v_lumop(&self) -> (r: u64)
        ensures
            r == field(self.spec_bits(), 20, 5),
    {
        Self::x(self.bits(), 20, 5)
    }

    /// The unit-stride mode of a vector store.
    fn v_sumop(&self) -> (r: u64)
        ensures
            r == field(self.spec_bits(), 20, 5),
    {
        Self::x(self.bits(), 20, 5)
    }

    /// The vector tail-agnostic bit.
    fn v_vta(&self) -> (r: u64)
        ensures
            r == field(self.spec_bits(), 26, 1),
    {
        Self::x(self.bits(), 26, 1)
    }

    /// The vector mask-agnostic bit.
    fn v_vma(&self) -> (r: u64)
        ensures
            r == field(self.spec_bits(), 27, 1),
    {
        Self::x(self.bits(), 27, 1)
    }

    /// The vector extended memory element width bit.
    fn v_mew(&self) -> (r: u64)
        ensures
            r == field(self.spec_bits(), 28, 1),
    {
        Self::x(self.bits(), 28, 1)
    }

    /// The six-bit unsigned immediate of a vector instruction.
    fn v_zimm6(&self) -> (r: u64)
        ensures
            r == field(self.spec_bits(), 15, 5) + 32 * field(self.spec_bits(), 26, 1),
    {
        let b = self.bits();
        let t0 = Self::x(b, 15, 5);
        let t1 = Self::x(b, 26, 1);
        proof {
            vstd::arithmetic::power2::lemma2_to64();
            lemma_field_bound(b, 15, 5);
            lemma_field_bound(b, 26, 1);
            lemma_shift_field(t1, 1, 5);
        }
        t0 + (t1 << 5u64)
    }

    /// The 2-bit immediate of a packed-SIMD instruction.
    fn p_imm2(&self) -> (r: u64)
        ensures
            r == field(self.spec_bits(), 20, 2),
    {
        Self::x(self.bits(), 20, 2)
    }

    /// The 3-bit immediate of a packed-SIMD instruction.
    fn p_imm3(&self) -> (r: u64)
        ensures
            r == field(self.spec_bits(), 20, 3),
    {
        Self::x(self.bits(), 20, 3)
    }

    /// The 4-bit immediate of a packed-SIMD instruction.
    fn p_imm4(&self) -> (r: u64)
        ensures
            r == field(self.spec_bits(), 20, 4),
    {
        Self::x(self.bits(), 20, 4)
    }

    /// The 5-bit immediate of a packed-SIMD instruction.
    fn p_imm5(&self) -> (r: u64)
        ensures
            r == field(self.spec_bits(), 20, 5),
    {
        Self::x(self.bits(), 20, 5)
    }

    /// The 6-bit immediate of a packed-SIMD instruction.
    fn p_imm6(&self) -> (r: u64)
        ensures
            r == field(self.spec_bits(), 20, 6),
    {
        Self::x(self.bits(), 20, 6)
    }
}

} // verus!
