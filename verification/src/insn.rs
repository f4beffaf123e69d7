//! Instruction model and disassembler.
//!
//! The disassembler decodes a byte range into an ordered sequence of
//! instructions.  It supports a closed subset of the x86 encodings for the
//! declared bitness: an operand-size prefix, a REX prefix (64-bit only),
//! single-byte instructions, register moves with an immediate, and the
//! two-operand ALU/MOV/TEST family with a full ModRM/SIB/displacement tail.
//! A byte sequence outside this subset does not decode; callers treat that
//! as the end of the decodable part of the range.
//!
//! Decoding never consumes bytes past the supplied range boundary: a
//! truncated trailing instruction fails to decode rather than read past
//! `end`.

use vstd::prelude::*;

verus! {

/// The target's bitness: how the bytes are interpreted.
#[derive(Clone, Copy, PartialEq, Eq, Structural, Debug)]
pub enum Bitness {
    /// 16-bit code.
    B16,
    /// 32-bit code.
    B32,
    /// 64-bit code.
    B64,
}

/// The two-operand operations whose register-register forms admit two
/// byte-identical-length encodings (direction-bit pairs).
#[derive(Clone, Copy, PartialEq, Eq, Structural, Debug)]
pub enum AluOp {
    /// `add`
    Add,
    /// `or`
    Or,
    /// `adc`
    Adc,
    /// `sbb`
    Sbb,
    /// `and`
    And,
    /// `sub`
    Sub,
    /// `xor`
    Xor,
    /// `cmp`
    Cmp,
    /// `mov`
    Mov,
}

/// The decoded meaning of an instruction: mnemonic class and operand values.
/// Register numbers already include the REX extension bit, so two encodings
/// of the same instruction decode to the same kind.
#[derive(Clone, Copy, PartialEq, Eq, Structural, Debug)]
pub enum InsnKind {
    /// A two-register ALU or MOV instruction: `op dst, src`.
    AluRR {
        /// The operation.
        op: AluOp,
        /// Destination register number (REX extension included).
        dst: u8,
        /// Source register number (REX extension included).
        src: u8,
    },
    /// `test` with two register operands (single encoding in this subset).
    TestRR {
        /// The ModRM `rm` register.
        first: u8,
        /// The ModRM `reg` register.
        second: u8,
    },
    /// An ALU or MOV instruction with a memory operand (never a site).
    Mem {
        /// The operation.
        op: AluOp,
    },
    /// `test` with a memory operand.
    TestMem,
    /// `nop`
    Nop,
    /// `ret`
    Ret,
    /// `push reg`
    Push {
        /// Register number.
        reg: u8,
    },
    /// `pop reg`
    Pop {
        /// Register number.
        reg: u8,
    },
    /// `inc reg` (16/32-bit single-byte form).
    Inc {
        /// Register number.
        reg: u8,
    },
    /// `dec reg` (16/32-bit single-byte form).
    Dec {
        /// Register number.
        reg: u8,
    },
    /// `mov reg, imm` (the immediate contributes only to the length).
    MovImm {
        /// Register number.
        reg: u8,
    },
}

/// A decoded instruction: where it sits, how long it is, its encoding
/// envelope (prefixes), and its meaning.
#[derive(Clone, Copy, PartialEq, Eq, Structural, Debug)]
pub struct Instruction {
    /// Offset of the first byte, relative to the section start.
    pub offset: usize,
    /// Total length in bytes, prefixes included.
    pub len: usize,
    /// An operand-size prefix (0x66) precedes the opcode.
    pub prefix66: bool,
    /// A REX prefix precedes the opcode (64-bit only).
    pub rex_present: bool,
    /// The REX.W bit.
    pub rex_w: bool,
    /// The REX.X bit.
    pub rex_x: bool,
    /// The decoded meaning.
    pub kind: InsnKind,
}

/// The ALU operation of an opcode of the `op r/m, reg` direction, if any.
pub open spec fn alu_of_rm_r(opc: u8) -> Option<AluOp> {
    if opc == 0x01 {
        Some(AluOp::Add)
    } else if opc == 0x09 {
        Some(AluOp::Or)
    } else if opc == 0x11 {
        Some(AluOp::Adc)
    } else if opc == 0x19 {
        Some(AluOp::Sbb)
    } else if opc == 0x21 {
        Some(AluOp::And)
    } else if opc == 0x29 {
        Some(AluOp::Sub)
    } else if opc == 0x31 {
        Some(AluOp::Xor)
    } else if opc == 0x39 {
        Some(AluOp::Cmp)
    } else if opc == 0x89 {
        Some(AluOp::Mov)
    } else {
        None
    }
}

/// The ALU operation of an opcode of the `op reg, r/m` direction, if any.
pub open spec fn alu_of_r_rm(opc: u8) -> Option<AluOp> {
    if opc == 0x03 {
        Some(AluOp::Add)
    } else if opc == 0x0B {
        Some(AluOp::Or)
    } else if opc == 0x13 {
        Some(AluOp::Adc)
    } else if opc == 0x1B {
        Some(AluOp::Sbb)
    } else if opc == 0x23 {
        Some(AluOp::And)
    } else if opc == 0x2B {
        Some(AluOp::Sub)
    } else if opc == 0x33 {
        Some(AluOp::Xor)
    } else if opc == 0x3B {
        Some(AluOp::Cmp)
    } else if opc == 0x8B {
        Some(AluOp::Mov)
    } else {
        None
    }
}

/// The opcode of the `op r/m, reg` direction of an operation.
pub open spec fn opcode_rm_r(op: AluOp) -> u8 {
    match op {
        AluOp::Add => 0x01,
        AluOp::Or => 0x09,
        AluOp::Adc => 0x11,
        AluOp::Sbb => 0x19,
        AluOp::And => 0x21,
        AluOp::Sub => 0x29,
        AluOp::Xor => 0x31,
        AluOp::Cmp => 0x39,
        AluOp::Mov => 0x89,
    }
}

/// The opcode of the `op reg, r/m` direction of an operation.
pub open spec fn opcode_r_rm(op: AluOp) -> u8 {
    match op {
        AluOp::Add => 0x03,
        AluOp::Or => 0x0B,
        AluOp::Adc => 0x13,
        AluOp::Sbb => 0x1B,
        AluOp::And => 0x23,
        AluOp::Sub => 0x2B,
        AluOp::Xor => 0x33,
        AluOp::Cmp => 0x3B,
        AluOp::Mov => 0x8B,
    }
}

/// The `mod` field of a ModRM byte.
pub open spec fn modrm_mod(m: u8) -> u8 {
    m / 64
}

/// The `reg` field of a ModRM byte.
pub open spec fn modrm_reg(m: u8) -> u8 {
    (m / 8) % 8
}

/// The `rm` field of a ModRM byte.
pub open spec fn modrm_rm(m: u8) -> u8 {
    m % 8
}

/// A 3-bit register field extended by a REX bit.
pub open spec fn reg_ext(low: u8, ext: bool) -> u8 {
    if ext {
        (low + 8) as u8
    } else {
        low
    }
}

/// Length in bytes of the immediate of `mov reg, imm` for the effective
/// operand size.
pub open spec fn imm_len(bit: Bitness, p66: bool, rexw: bool) -> int {
    match bit {
        Bitness::B16 => if p66 {
            4
        } else {
            2
        },
        Bitness::B32 => if p66 {
            2
        } else {
            4
        },
        Bitness::B64 => if rexw {
            8
        } else if p66 {
            2
        } else {
            4
        },
    }
}

/// Length in bytes of a memory-form ModRM tail (SIB byte plus displacement),
/// given the ModRM byte and, when one is needed, the SIB byte at `pos`.
/// `None` means the SIB byte lies past the range end.
pub open spec fn mem_tail_len(b: Seq<u8>, pos: int, end: int, addr16: bool, m: u8) -> Option<int> {
    let md = modrm_mod(m);
    let rm = modrm_rm(m);
    if addr16 {
        if md == 0 {
            if rm == 6 {
                Some(2)
            } else {
                Some(0)
            }
        } else if md == 1 {
            Some(1)
        } else {
            Some(2)
        }
    } else if rm == 4 {
        if pos < end {
            let base = modrm_rm(b[pos]);
            if md == 0 {
                if base == 5 {
                    Some(5)
                } else {
                    Some(1)
                }
            } else if md == 1 {
                Some(2)
            } else {
                Some(5)
            }
        } else {
            None
        }
    } else if md == 0 {
        if rm == 5 {
            Some(4)
        } else {
            Some(0)
        }
    } else if md == 1 {
        Some(1)
    } else {
        Some(4)
    }
}

/// Decode of the opcode and what follows it.  `off` is the instruction
/// start, `iop` the opcode index, and the prefix flags describe the bytes
/// between the two.
pub open spec fn spec_decode_op(
    b: Seq<u8>,
    off: int,
    end: int,
    bit: Bitness,
    p66: bool,
    has_rex: bool,
    rex: u8,
    iop: int,
) -> Option<Instruction> {
    let opc = b[iop];
    let rexw = (rex / 8) % 2 == 1;
    let rexr = (rex / 4) % 2 == 1;
    let rexx = (rex / 2) % 2 == 1;
    let rexb = rex % 2 == 1;
    let head = Instruction {
        offset: off as usize,
        len: 0,
        prefix66: p66,
        rex_present: has_rex,
        rex_w: rexw,
        rex_x: rexx,
        kind: InsnKind::Nop,
    };
    if opc == 0x90 {
        Some(Instruction { len: (iop + 1 - off) as usize, kind: InsnKind::Nop, ..head })
    } else if opc == 0xC3 {
        Some(Instruction { len: (iop + 1 - off) as usize, kind: InsnKind::Ret, ..head })
    } else if 0x50 <= opc < 0x58 {
        Some(
            Instruction {
                len: (iop + 1 - off) as usize,
                kind: InsnKind::Push { reg: reg_ext((opc - 0x50) as u8, rexb) },
                ..head
            },
        )
    } else if 0x58 <= opc < 0x60 {
        Some(
            Instruction {
                len: (iop + 1 - off) as usize,
                kind: InsnKind::Pop { reg: reg_ext((opc - 0x58) as u8, rexb) },
                ..head
            },
        )
    } else if !(bit is B64) && 0x40 <= opc < 0x48 {
        Some(
            Instruction {
                len: (iop + 1 - off) as usize,
                kind: InsnKind::Inc { reg: (opc - 0x40) as u8 },
                ..head
            },
        )
    } else if !(bit is B64) && 0x48 <= opc < 0x50 {
        Some(
            Instruction {
                len: (iop + 1 - off) as usize,
                kind: InsnKind::Dec { reg: (opc - 0x48) as u8 },
                ..head
            },
        )
    } else if 0xB8 <= opc < 0xC0 {
        let il = imm_len(bit, p66, rexw);
        if iop + 1 + il <= end {
            Some(
                Instruction {
                    len: (iop + 1 + il - off) as usize,
                    kind: InsnKind::MovImm { reg: reg_ext((opc - 0xB8) as u8, rexb) },
                    ..head
                },
            )
        } else {
            None
        }
    } else if alu_of_rm_r(opc) is Some || alu_of_r_rm(opc) is Some || opc == 0x85 {
        if iop + 1 < end {
            let m = b[iop + 1];
            if modrm_mod(m) == 3 {
                let rm = reg_ext(modrm_rm(m), rexb);
                let reg = reg_ext(modrm_reg(m), rexr);
                let kind = if alu_of_rm_r(opc) is Some {
                    InsnKind::AluRR { op: alu_of_rm_r(opc)->Some_0, dst: rm, src: reg }
                } else if alu_of_r_rm(opc) is Some {
                    InsnKind::AluRR { op: alu_of_r_rm(opc)->Some_0, dst: reg, src: rm }
                } else {
                    InsnKind::TestRR { first: rm, second: reg }
                };
                Some(Instruction { len: (iop + 2 - off) as usize, kind, ..head })
            } else {
                match mem_tail_len(b, iop + 2, end, bit is B16, m) {
                    Some(t) => if iop + 2 + t <= end {
                        let kind = if alu_of_rm_r(opc) is Some {
                            InsnKind::Mem { op: alu_of_rm_r(opc)->Some_0 }
                        } else if alu_of_r_rm(opc) is Some {
                            InsnKind::Mem { op: alu_of_r_rm(opc)->Some_0 }
                        } else {
                            InsnKind::TestMem
                        };
                        Some(Instruction { len: (iop + 2 + t - off) as usize, kind, ..head })
                    } else {
                        None
                    },
                    None => None,
                }
            }
        } else {
            None
        }
    } else {
        None
    }
}

/// Decode the instruction starting at `off`, reading no byte at or past
/// `end`.  `None` when the bytes are outside the supported subset or the
/// instruction would cross `end`.
pub open spec fn spec_decode(b: Seq<u8>, off: int, end: int, bit: Bitness) -> Option<Instruction> {
    if 0 <= off < end && end <= b.len() && off <= usize::MAX {
        let p66 = b[off] == 0x66;
        let i1 = if p66 {
            off + 1
        } else {
            off
        };
        if i1 < end {
            let has_rex = bit is B64 && 0x40 <= b[i1] < 0x50;
            let rex: u8 = if has_rex {
                b[i1]
            } else {
                0
            };
            let iop = if has_rex {
                i1 + 1
            } else {
                i1
            };
            if iop < end {
                spec_decode_op(b, off, end, bit, p66, has_rex, rex, iop)
            } else {
                None
            }
        } else {
            None
        }
    } else {
        None
    }
}

/// A decoded instruction sits where decoding started, is at least one byte
/// long, and stays within the range.
pub proof fn lemma_decode_len(b: Seq<u8>, off: int, end: int, bit: Bitness)
    requires
        spec_decode(b, off, end, bit) is Some,
    ensures
        spec_decode(b, off, end, bit)->Some_0.offset == off,
        1 <= spec_decode(b, off, end, bit)->Some_0.len,
        off + spec_decode(b, off, end, bit)->Some_0.len <= end,
{
}

/// Decoding reads only the bytes of the instruction itself: a second buffer
/// holding the same bytes over the instruction's interval decodes to the
/// same instruction, for any range with the same end.
#[verifier::rlimit(100)]
pub proof fn lemma_decode_local(b1: Seq<u8>, b2: Seq<u8>, off: int, end: int, bit: Bitness)
    requires
        spec_decode(b1, off, end, bit) is Some,
        end <= b2.len(),
        forall|k: int|
            off <= k < off + spec_decode(b1, off, end, bit)->Some_0.len ==> b1[k] == b2[k],
    ensures
        spec_decode(b2, off, end, bit) == spec_decode(b1, off, end, bit),
{
    let i = spec_decode(b1, off, end, bit)->Some_0;
    lemma_decode_len(b1, off, end, bit);
    assert(b2[off] == b1[off]);
    let p66 = b1[off] == 0x66;
    let i1: int = if p66 {
        off + 1
    } else {
        off
    };
    assert(i1 < off + i.len);
    assert(b2[i1] == b1[i1]);
    let has_rex = bit is B64 && 0x40 <= b1[i1] < 0x50;
    let iop: int = if has_rex {
        i1 + 1
    } else {
        i1
    };
    assert(iop < off + i.len);
    assert(b2[iop] == b1[iop]);
    if iop + 1 < off + i.len {
        assert(b2[iop + 1] == b1[iop + 1]);
    }
    if iop + 2 < off + i.len {
        assert(b2[iop + 2] == b1[iop + 2]);
    }
}

/// Decode the instruction starting at `off` within `[off, end)` of `bytes`.
#[verifier::rlimit(100)]
pub fn decode_one(bytes: &Vec<u8>, off: usize, end: usize, bit: Bitness) -> (out: Option<
    Instruction,
>)
    requires
        end <= bytes@.len(),
    ensures
        out == spec_decode(bytes@, off as int, end as int, bit),
{
    if off >= end {
        return None;
    }
    let p66 = bytes[off] == 0x66;
    let i1 = if p66 {
        off + 1
    } else {
        off
    };
    if i1 >= end {
        return None;
    }
    let b1 = bytes[i1];
    let has_rex = matches!(bit, Bitness::B64) && 0x40 <= b1 && b1 < 0x50;
    let rex: u8 = if has_rex {
        b1
    } else {
        0
    };
    let iop = if has_rex {
        i1 + 1
    } else {
        i1
    };
    if iop >= end {
        return None;
    }
    let opc = bytes[iop];
    let rexw = (rex / 8) % 2 == 1;
    let rexr = (rex / 4) % 2 == 1;
    let rexx = (rex / 2) % 2 == 1;
    let rexb = rex % 2 == 1;
    let head = Instruction {
        offset: off,
        len: 0,
        prefix66: p66,
        rex_present: has_rex,
        rex_w: rexw,
        rex_x: rexx,
        kind: InsnKind::Nop,
    };
    if opc == 0x90 {
        Some(Instruction { len: iop + 1 - off, kind: InsnKind::Nop, ..head })
    } else if opc == 0xC3 {
        Some(Instruction { len: iop + 1 - off, kind: InsnKind::Ret, ..head })
    } else if 0x50 <= opc && opc < 0x58 {
        Some(
            Instruction {
                len: iop + 1 - off,
                kind: InsnKind::Push { reg: ext_reg(opc - 0x50, rexb) },
                ..head
            },
        )
    } else if 0x58 <= opc && opc < 0x60 {
        Some(
            Instruction {
                len: iop + 1 - off,
                kind: InsnKind::Pop { reg: ext_reg(opc - 0x58, rexb) },
                ..head
            },
        )
    } else if !matches!(bit, Bitness::B64) && 0x40 <= opc && opc < 0x48 {
        Some(Instruction { len: iop + 1 - off, kind: InsnKind::Inc { reg: opc - 0x40 }, ..head })
    } else if !matches!(bit, Bitness::B64) && 0x48 <= opc && opc < 0x50 {
        Some(Instruction { len: iop + 1 - off, kind: InsnKind::Dec { reg: opc - 0x48 }, ..head })
    } else if 0xB8 <= opc && opc < 0xC0 {
        let il = imm_len_exec(bit, p66, rexw);
        if il <= end - (iop + 1) {
            Some(
                Instruction {
                    len: iop + 1 + il - off,
                    kind: InsnKind::MovImm { reg: ext_reg(opc - 0xB8, rexb) },
                    ..head
                },
            )
        } else {
            None
        }
    } else {
        let class_rm_r = alu_of_rm_r_exec(opc);
        let class_r_rm = alu_of_r_rm_exec(opc);
        if class_rm_r.is_none() && class_r_rm.is_none() && opc != 0x85 {
            return None;
        }
        if iop + 1 >= end {
            return None;
        }
        let m = bytes[iop + 1];
        if m / 64 == 3 {
            let rm = ext_reg(m % 8, rexb);
            let reg = ext_reg((m / 8) % 8, rexr);
            let kind = match class_rm_r {
                Some(op) => InsnKind::AluRR { op, dst: rm, src: reg },
                None => match class_r_rm {
                    Some(op) => InsnKind::AluRR { op, dst: reg, src: rm },
                    None => InsnKind::TestRR { first: rm, second: reg },
                },
            };
            Some(Instruction { len: iop + 2 - off, kind, ..head })
        } else {
            let addr16 = matches!(bit, Bitness::B16);
            let md = m / 64;
            let rm = m % 8;
            let tail: Option<usize> = if addr16 {
                if md == 0 {
                    if rm == 6 {
                        Some(2)
                    } else {
                        Some(0)
                    }
                } else if md == 1 {
                    Some(1)
                } else {
                    Some(2)
                }
            } else if rm == 4 {
                if iop + 2 < end {
                    let base = bytes[iop + 2] % 8;
                    if md == 0 {
                        if base == 5 {
                            Some(5)
                        } else {
                            Some(1)
                        }
                    } else if md == 1 {
                        Some(2)
                    } else {
                        Some(5)
                    }
                } else {
                    None
                }
            } else if md == 0 {
                if rm == 5 {
                    Some(4)
                } else {
                    Some(0)
                }
            } else if md == 1 {
                Some(1)
            } else {
                Some(4)
            };
            match tail {
                Some(t) => {
                    if t <= end - (iop + 2) {
                        let kind = match class_rm_r {
                            Some(op) => InsnKind::Mem { op },
                            None => match class_r_rm {
                                Some(op) => InsnKind::Mem { op },
                                None => InsnKind::TestMem,
                            },
                        };
                        Some(Instruction { len: iop + 2 + t - off, kind, ..head })
                    } else {
                        None
                    }
                },
                None => None,
            }
        }
    }
}

/// Executable twin of [`reg_ext`].
fn ext_reg(low: u8, ext: bool) -> (r: u8)
    requires
        low < 8,
    ensures
        r == reg_ext(low, ext),
{
    if ext {
        low + 8
    } else {
        low
    }
}

/// Executable twin of [`imm_len`].
fn imm_len_exec(bit: Bitness, p66: bool, rexw: bool) -> (r: usize)
    ensures
        r as int == imm_len(bit, p66, rexw),
{
    match bit {
        Bitness::B16 => if p66 {
            4
        } else {
            2
        },
        Bitness::B32 => if p66 {
            2
        } else {
            4
        },
        Bitness::B64 => if rexw {
            8
        } else if p66 {
            2
        } else {
            4
        },
    }
}

/// Executable twin of [`alu_of_rm_r`].
fn alu_of_rm_r_exec(opc: u8) -> (r: Option<AluOp>)
    ensures
        r == alu_of_rm_r(opc),
{
    match opc {
        0x01 => Some(AluOp::Add),
        0x09 => Some(AluOp::Or),
        0x11 => Some(AluOp::Adc),
        0x19 => Some(AluOp::Sbb),
        0x21 => Some(AluOp::And),
        0x29 => Some(AluOp::Sub),
        0x31 => Some(AluOp::Xor),
        0x39 => Some(AluOp::Cmp),
        0x89 => Some(AluOp::Mov),
        _ => None,
    }
}

/// Executable twin of [`alu_of_r_rm`].
fn alu_of_r_rm_exec(opc: u8) -> (r: Option<AluOp>)
    ensures
        r == alu_of_r_rm(opc),
{
    match opc {
        0x03 => Some(AluOp::Add),
        0x0B => Some(AluOp::Or),
        0x13 => Some(AluOp::Adc),
        0x1B => Some(AluOp::Sbb),
        0x23 => Some(AluOp::And),
        0x2B => Some(AluOp::Sub),
        0x33 => Some(AluOp::Xor),
        0x3B => Some(AluOp::Cmp),
        0x8B => Some(AluOp::Mov),
        _ => None,
    }
}

} // verus!
