//! The encoding equivalence table.
//!
//! A static, pure classification: a decoded instruction either belongs to the
//! register-register ALU/MOV equivalence class — in which case it has exactly
//! two byte-identical-length, behaviour-identical encodings, one per
//! direction of the opcode pair — or it has no variants at all.  The variant
//! order is canonical and address-independent: the `op r/m, reg` direction
//! first.  This module is the single place where semantics preservation is
//! proved: every variant of an instruction decodes back to that same
//! instruction.

use vstd::prelude::*;

use crate::insn::{
    alu_of_r_rm,
    alu_of_rm_r,
    opcode_r_rm,
    opcode_rm_r,
    reg_ext,
    spec_decode,
    AluOp,
    Bitness,
    Instruction,
    InsnKind,
};

verus! {

/// Length of a register-register ALU/MOV encoding: prefixes plus opcode plus
/// ModRM.
pub open spec fn rr_len(i: Instruction) -> int {
    (if i.prefix66 {
        1int
    } else {
        0
    }) + (if i.rex_present {
        1int
    } else {
        0
    }) + 2
}

/// Well-formedness of a decoded register-register ALU/MOV instruction: the
/// shape every such instruction produced by the disassembler has.
pub open spec fn rr_wf(i: Instruction, bit: Bitness) -> bool {
    &&& i.kind is AluRR
    &&& i.kind->AluRR_dst < 16
    &&& i.kind->AluRR_src < 16
    &&& !i.rex_present ==> i.kind->AluRR_dst < 8 && i.kind->AluRR_src < 8
    &&& !i.rex_present ==> !i.rex_w && !i.rex_x
    &&& i.rex_present ==> bit is B64
    &&& i.len == rr_len(i)
    &&& i.offset + i.len <= usize::MAX
}

/// A REX prefix byte from its four bits.
pub open spec fn rex_byte(w: bool, r: bool, x: bool, b: bool) -> u8 {
    (0x40 + (if w {
        8int
    } else {
        0
    }) + (if r {
        4int
    } else {
        0
    }) + (if x {
        2int
    } else {
        0
    }) + (if b {
        1int
    } else {
        0
    })) as u8
}

/// The concrete bytes of one direction of a register-register ALU/MOV
/// instruction.  `dir` false is the `op r/m, reg` direction (destination in
/// the ModRM `rm` field), `dir` true the `op reg, r/m` direction.
pub open spec fn rr_encoding(i: Instruction, dir: bool) -> Seq<u8> {
    let dst = i.kind->AluRR_dst;
    let src = i.kind->AluRR_src;
    let regf: u8 = if dir {
        dst
    } else {
        src
    };
    let rmf: u8 = if dir {
        src
    } else {
        dst
    };
    let opcode: u8 = if dir {
        opcode_r_rm(i.kind->AluRR_op)
    } else {
        opcode_rm_r(i.kind->AluRR_op)
    };
    let modrm: u8 = (0xC0 + (regf % 8) * 8 + (rmf % 8)) as u8;
    let rex: u8 = rex_byte(i.rex_w, regf >= 8, i.rex_x, rmf >= 8);
    let pre: Seq<u8> = if i.prefix66 {
        seq![0x66u8]
    } else {
        Seq::<u8>::empty()
    };
    let rexs: Seq<u8> = if i.rex_present {
        seq![rex]
    } else {
        Seq::<u8>::empty()
    };
    pre + rexs + seq![opcode, modrm]
}

/// The ordered variant set of an instruction: both directions for the
/// register-register ALU/MOV class, nothing for every other instruction.
pub open spec fn spec_variants(i: Instruction) -> Seq<Seq<u8>> {
    if i.kind is AluRR {
        seq![rr_encoding(i, false), rr_encoding(i, true)]
    } else {
        Seq::<Seq<u8>>::empty()
    }
}

/// Every encoding of an instruction has the instruction's length, and the
/// two directions differ (their opcode bytes do).
pub proof fn lemma_encodings_differ(i: Instruction)
    requires
        i.kind is AluRR,
    ensures
        rr_encoding(i, false).len() == rr_len(i),
        rr_encoding(i, true).len() == rr_len(i),
        rr_encoding(i, false) != rr_encoding(i, true),
{
    let e0 = rr_encoding(i, false);
    let e1 = rr_encoding(i, true);
    let p: int = rr_len(i) - 2;
    assert(e0[p] == opcode_rm_r(i.kind->AluRR_op));
    assert(e1[p] == opcode_r_rm(i.kind->AluRR_op));
    assert(opcode_rm_r(i.kind->AluRR_op) != opcode_r_rm(i.kind->AluRR_op));
}

/// The opcode pair of an operation collides with no other opcode the
/// disassembler dispatches on.
proof fn lemma_opcode_facts(op: AluOp)
    ensures
        opcode_rm_r(op) != 0x66,
        opcode_r_rm(op) != 0x66,
        !(0x40 <= opcode_rm_r(op) < 0x50),
        !(0x40 <= opcode_r_rm(op) < 0x50),
        opcode_rm_r(op) != 0x90,
        opcode_r_rm(op) != 0x90,
        opcode_rm_r(op) != 0xC3,
        opcode_r_rm(op) != 0xC3,
        !(0x50 <= opcode_rm_r(op) < 0x60),
        !(0x50 <= opcode_r_rm(op) < 0x60),
        !(0xB8 <= opcode_rm_r(op) < 0xC0),
        !(0xB8 <= opcode_r_rm(op) < 0xC0),
        alu_of_rm_r(opcode_rm_r(op)) == Some(op),
        alu_of_r_rm(opcode_r_rm(op)) == Some(op),
        alu_of_rm_r(opcode_r_rm(op)) is None,
        alu_of_r_rm(opcode_rm_r(op)) is None,
{
}

/// Placing either encoding of a well-formed register-register instruction at
/// its offset decodes to exactly that instruction: the mnemonic, the operand
/// values and the length are preserved.
#[verifier::rlimit(100)]
#[verifier::spinoff_prover]
pub proof fn lemma_encoding_decodes(b: Seq<u8>, end: int, bit: Bitness, i: Instruction, dir: bool)
    requires
        rr_wf(i, bit),
        i.offset + i.len <= end,
        end <= b.len(),
        b.subrange(i.offset as int, i.offset + i.len) == rr_encoding(i, dir),
    ensures
        spec_decode(b, i.offset as int, end, bit) == Some(i),
{
    let off = i.offset as int;
    let e = rr_encoding(i, dir);
    let dst = i.kind->AluRR_dst;
    let src = i.kind->AluRR_src;
    let regf: u8 = if dir {
        dst
    } else {
        src
    };
    let rmf: u8 = if dir {
        src
    } else {
        dst
    };
    let opcode: u8 = if dir {
        opcode_r_rm(i.kind->AluRR_op)
    } else {
        opcode_rm_r(i.kind->AluRR_op)
    };
    let modrm: u8 = (0xC0 + (regf % 8) * 8 + (rmf % 8)) as u8;
    let rex: u8 = rex_byte(i.rex_w, regf >= 8, i.rex_x, rmf >= 8);
    assert(forall|k: int| 0 <= k < i.len ==> b[off + k] == e[k]);
    let np: int = if i.prefix66 {
        1
    } else {
        0
    };
    let nr: int = if i.rex_present {
        1
    } else {
        0
    };
    assert(e.len() == np + nr + 2);
    if i.prefix66 {
        assert(e[0] == 0x66);
    }
    if i.rex_present {
        assert(e[np] == rex);
        assert(0x40 <= rex < 0x50);
    }
    assert(e[np + nr] == opcode);
    assert(e[np + nr + 1] == modrm);
    lemma_opcode_facts(i.kind->AluRR_op);
    let iop: int = off + np + nr;
    assert(b[off] == e[0]);
    assert(b[off + np] == e[np]);
    assert(b[iop] == opcode);
    assert(b[iop + 1] == modrm);
    if i.rex_present {
        assert((rex / 8) % 2 == (if i.rex_w {
            1int
        } else {
            0
        }));
        assert((rex / 4) % 2 == (if regf >= 8 {
            1int
        } else {
            0
        }));
        assert((rex / 2) % 2 == (if i.rex_x {
            1int
        } else {
            0
        }));
        assert(rex % 2 == (if rmf >= 8 {
            1int
        } else {
            0
        }));
    }
    assert(modrm / 64 == 3 && (modrm / 8) % 8 == regf % 8 && modrm % 8 == rmf % 8) by {
        assert(modrm == 0xC0 + (regf % 8) * 8 + (rmf % 8));
        assert(regf % 8 < 8 && rmf % 8 < 8);
    };
    assert(reg_ext(modrm % 8, rmf >= 8) == rmf);
    assert(reg_ext((modrm / 8) % 8, regf >= 8) == regf);
    assert(spec_decode(b, off, end, bit) == Some(i));
}

/// A decoded register-register ALU/MOV instruction is well formed and its
/// raw bytes are one of its two variants.
#[verifier::rlimit(100)]
#[verifier::spinoff_prover]
pub proof fn lemma_decode_gives_variant(b: Seq<u8>, off: int, end: int, bit: Bitness)
    requires
        end <= usize::MAX,
        spec_decode(b, off, end, bit) matches Some(i) && i.kind is AluRR,
    ensures
        ({
            let i = spec_decode(b, off, end, bit)->Some_0;
            &&& rr_wf(i, bit)
            &&& (b.subrange(off, off + i.len) == rr_encoding(i, false) || b.subrange(
                off,
                off + i.len,
            ) == rr_encoding(i, true))
        }),
{
    let i = spec_decode(b, off, end, bit)->Some_0;
    let p66 = b[off] == 0x66;
    let np: int = if p66 {
        1
    } else {
        0
    };
    let i1: int = off + np;
    let has_rex = bit is B64 && 0x40 <= b[i1] < 0x50;
    let nr: int = if has_rex {
        1
    } else {
        0
    };
    let rex: u8 = if has_rex {
        b[i1]
    } else {
        0
    };
    let iop: int = i1 + nr;
    let opc = b[iop];
    let m = b[iop + 1];
    let dir = alu_of_rm_r(opc) is None;
    assert(m == 0xC0 + ((m / 8) % 8) * 8 + m % 8) by {
        assert(m / 64 == 3);
        assert(m == 64 * (m / 64) + 8 * ((m / 8) % 8) + m % 8);
    };
    if has_rex {
        assert(rex == rex_byte(
            (rex / 8) % 2 == 1,
            (rex / 4) % 2 == 1,
            (rex / 2) % 2 == 1,
            rex % 2 == 1,
        )) by {
            assert(0x40 <= rex < 0x50);
            assert(rex == 64 + 8 * ((rex / 8) % 2) + 4 * ((rex / 4) % 2) + 2 * ((rex / 2) % 2) + rex
                % 2);
        };
    }
    let e = rr_encoding(i, dir);
    assert(e.len() == i.len);
    assert(b.subrange(off, off + i.len).len() == i.len);
    assert forall|k: int| 0 <= k < i.len implies b.subrange(off, off + i.len)[k] == e[k] by {
        assert(b.subrange(off, off + i.len)[k] == b[off + k]);
        if p66 && k == 0 {
            assert(e[0] == 0x66);
        } else if has_rex && k == np {
            assert(e[np] == rex);
        } else if k == np + nr {
            assert(e[k] == opc);
        } else {
            assert(k == np + nr + 1);
            assert(e[k] == m);
        }
    }
    assert(b.subrange(off, off + i.len) =~= e);
}

/// Both variants of a well-formed register-register instruction decode to
/// that same instruction: identical mnemonic, operand values and length.
pub proof fn lemma_semantics_preserved(
    b: Seq<u8>,
    end: int,
    bit: Bitness,
    i: Instruction,
    vi: int,
)
    requires
        rr_wf(i, bit),
        i.offset + i.len <= end,
        end <= b.len(),
        0 <= vi < spec_variants(i).len(),
        b.subrange(i.offset as int, i.offset + i.len) == spec_variants(i)[vi],
    ensures
        spec_decode(b, i.offset as int, end, bit) == Some(i),
{
    if vi == 0 {
        lemma_encoding_decodes(b, end, bit, i, false);
    } else {
        lemma_encoding_decodes(b, end, bit, i, true);
    }
}

/// Executable twin of [`opcode_rm_r`] and [`opcode_r_rm`].
fn opcode_of(op: AluOp, dir: bool) -> (r: u8)
    ensures
        r == (if dir {
            opcode_r_rm(op)
        } else {
            opcode_rm_r(op)
        }),
{
    match op {
        AluOp::Add => if dir {
            0x03
        } else {
            0x01
        },
        AluOp::Or => if dir {
            0x0B
        } else {
            0x09
        },
        AluOp::Adc => if dir {
            0x13
        } else {
            0x11
        },
        AluOp::Sbb => if dir {
            0x1B
        } else {
            0x19
        },
        AluOp::And => if dir {
            0x23
        } else {
            0x21
        },
        AluOp::Sub => if dir {
            0x2B
        } else {
            0x29
        },
        AluOp::Xor => if dir {
            0x33
        } else {
            0x31
        },
        AluOp::Cmp => if dir {
            0x3B
        } else {
            0x39
        },
        AluOp::Mov => if dir {
            0x8B
        } else {
            0x89
        },
    }
}

/// Build the concrete bytes of one direction of a register-register
/// instruction.
fn encode_rr(i: &Instruction, dir: bool) -> (v: Vec<u8>)
    requires
        i.kind is AluRR,
        i.kind->AluRR_dst < 16,
        i.kind->AluRR_src < 16,
    ensures
        v@ == rr_encoding(*i, dir),
{
    let (op, dst, src) = match i.kind {
        InsnKind::AluRR { op, dst, src } => (op, dst, src),
        _ => (AluOp::Add, 0, 0),
    };
    let regf: u8 = if dir {
        dst
    } else {
        src
    };
    let rmf: u8 = if dir {
        src
    } else {
        dst
    };
    let opcode = opcode_of(op, dir);
    let modrm: u8 = 0xC0 + (regf % 8) * 8 + (rmf % 8);
    let mut v: Vec<u8> = Vec::new();
    if i.prefix66 {
        v.push(0x66);
    }
    if i.rex_present {
        let mut rex: u8 = 0x40;
        if i.rex_w {
            rex = rex + 8;
        }
        if regf >= 8 {
            rex = rex + 4;
        }
        if i.rex_x {
            rex = rex + 2;
        }
        if rmf >= 8 {
            rex = rex + 1;
        }
        v.push(rex);
    }
    v.push(opcode);
    v.push(modrm);
    proof {
        assert(v@ =~= rr_encoding(*i, dir));
    }
    v
}

/// The ordered variant set of an instruction: for a register-register
/// ALU/MOV instruction its two equivalent encodings, in the canonical order;
/// for every other instruction, no variants (capacity zero).
pub fn variants_for(i: &Instruction) -> (out: Vec<Vec<u8>>)
    requires
        i.kind is AluRR ==> i.kind->AluRR_dst < 16 && i.kind->AluRR_src < 16,
    ensures
        out@.len() == spec_variants(*i).len(),
        forall|k: int| 0 <= k < out@.len() ==> #[trigger] out@[k]@ == spec_variants(*i)[k],
{
    let mut out: Vec<Vec<u8>> = Vec::new();
    if matches!(i.kind, InsnKind::AluRR { .. }) {
        out.push(encode_rr(i, false));
        out.push(encode_rr(i, true));
    }
    out
}

} // verus!
