//! The decoder: its numbers, what is read from instructions, and their effects.

use iced_x86::{Mnemonic, OpKind, Register};
use tvm_devirt::ir::decode::{
    decode_at, vector_index, xmm_index, Inst, EIP, FS, GS, IMMEDIATE_16, IMMEDIATE_32,
    IMMEDIATE_32_TO_64, IMMEDIATE_64, IMMEDIATE_8, IMMEDIATE_8_2ND, IMMEDIATE_8_TO_16,
    IMMEDIATE_8_TO_32, IMMEDIATE_8_TO_64, MEMORY, NEAR_BRANCH_16, NEAR_BRANCH_64, NO_REGISTER,
    REGISTER, RIP, XMM_FIRST, YMM_FIRST, ZMM_FIRST,
};
use tvm_devirt::ir::graph::{BlockId, Terminator};
use tvm_devirt::ir::instr::{Instr, SchedBlock};
use tvm_devirt::ir::live::clobber_points;
use tvm_devirt::ir::mnemonic;
use tvm_devirt::ir::mnemonic::{cmov_cc, is_boxable, jcc_cc, setcc_cc, ConditionCode};
use tvm_devirt::ir::value::{Reg, Width};
use tvm_devirt::ir::x86::{decode_reg, AH, AL, AX, DX, EAX, EDX, RAX, RDX, SPL};
use tvm_devirt::vm::image::{Image, Section};

fn inst(bytes: &[u8]) -> Inst {
    Inst::decode(bytes.to_vec(), 0x1000).expect("a whole instruction")
}

#[test]
fn mnemonics_have_the_decoders_numbers() {
    let table: Vec<(u32, Mnemonic)> = vec![
        (mnemonic::ADC, Mnemonic::Adc),
        (mnemonic::ADD, Mnemonic::Add),
        (mnemonic::AND, Mnemonic::And),
        (mnemonic::BSWAP, Mnemonic::Bswap),
        (mnemonic::BT, Mnemonic::Bt),
        (mnemonic::CALL, Mnemonic::Call),
        (mnemonic::CDQ, Mnemonic::Cdq),
        (mnemonic::CMOVA, Mnemonic::Cmova),
        (mnemonic::CMOVAE, Mnemonic::Cmovae),
        (mnemonic::CMOVB, Mnemonic::Cmovb),
        (mnemonic::CMOVBE, Mnemonic::Cmovbe),
        (mnemonic::CMOVE, Mnemonic::Cmove),
        (mnemonic::CMOVG, Mnemonic::Cmovg),
        (mnemonic::CMOVGE, Mnemonic::Cmovge),
        (mnemonic::CMOVL, Mnemonic::Cmovl),
        (mnemonic::CMOVLE, Mnemonic::Cmovle),
        (mnemonic::CMOVNE, Mnemonic::Cmovne),
        (mnemonic::CMOVNO, Mnemonic::Cmovno),
        (mnemonic::CMOVNP, Mnemonic::Cmovnp),
        (mnemonic::CMOVNS, Mnemonic::Cmovns),
        (mnemonic::CMOVO, Mnemonic::Cmovo),
        (mnemonic::CMOVP, Mnemonic::Cmovp),
        (mnemonic::CMOVS, Mnemonic::Cmovs),
        (mnemonic::CMP, Mnemonic::Cmp),
        (mnemonic::CMPXCHG, Mnemonic::Cmpxchg),
        (mnemonic::CPUID, Mnemonic::Cpuid),
        (mnemonic::CQO, Mnemonic::Cqo),
        (mnemonic::CWD, Mnemonic::Cwd),
        (mnemonic::DEC, Mnemonic::Dec),
        (mnemonic::DIV, Mnemonic::Div),
        (mnemonic::HLT, Mnemonic::Hlt),
        (mnemonic::IDIV, Mnemonic::Idiv),
        (mnemonic::IMUL, Mnemonic::Imul),
        (mnemonic::INC, Mnemonic::Inc),
        (mnemonic::INCSSPD, Mnemonic::Incsspd),
        (mnemonic::INCSSPQ, Mnemonic::Incsspq),
        (mnemonic::INT, Mnemonic::Int),
        (mnemonic::INT3, Mnemonic::Int3),
        (mnemonic::INTO, Mnemonic::Into),
        (mnemonic::INVLPG, Mnemonic::Invlpg),
        (mnemonic::IRET, Mnemonic::Iret),
        (mnemonic::IRETD, Mnemonic::Iretd),
        (mnemonic::IRETQ, Mnemonic::Iretq),
        (mnemonic::JA, Mnemonic::Ja),
        (mnemonic::JAE, Mnemonic::Jae),
        (mnemonic::JB, Mnemonic::Jb),
        (mnemonic::JBE, Mnemonic::Jbe),
        (mnemonic::JE, Mnemonic::Je),
        (mnemonic::JG, Mnemonic::Jg),
        (mnemonic::JGE, Mnemonic::Jge),
        (mnemonic::JL, Mnemonic::Jl),
        (mnemonic::JLE, Mnemonic::Jle),
        (mnemonic::JMP, Mnemonic::Jmp),
        (mnemonic::JNE, Mnemonic::Jne),
        (mnemonic::JNO, Mnemonic::Jno),
        (mnemonic::JNP, Mnemonic::Jnp),
        (mnemonic::JNS, Mnemonic::Jns),
        (mnemonic::JO, Mnemonic::Jo),
        (mnemonic::JP, Mnemonic::Jp),
        (mnemonic::JS, Mnemonic::Js),
        (mnemonic::LEA, Mnemonic::Lea),
        (mnemonic::LFENCE, Mnemonic::Lfence),
        (mnemonic::MFENCE, Mnemonic::Mfence),
        (mnemonic::MOV, Mnemonic::Mov),
        (mnemonic::MOVAPD, Mnemonic::Movapd),
        (mnemonic::MOVAPS, Mnemonic::Movaps),
        (mnemonic::MOVDQA, Mnemonic::Movdqa),
        (mnemonic::MOVDQU, Mnemonic::Movdqu),
        (mnemonic::MOVLPD, Mnemonic::Movlpd),
        (mnemonic::MOVLPS, Mnemonic::Movlps),
        (mnemonic::MOVQ, Mnemonic::Movq),
        (mnemonic::MOVSD, Mnemonic::Movsd),
        (mnemonic::MOVSX, Mnemonic::Movsx),
        (mnemonic::MOVSXD, Mnemonic::Movsxd),
        (mnemonic::MOVUPD, Mnemonic::Movupd),
        (mnemonic::MOVUPS, Mnemonic::Movups),
        (mnemonic::MOVZX, Mnemonic::Movzx),
        (mnemonic::MUL, Mnemonic::Mul),
        (mnemonic::NEG, Mnemonic::Neg),
        (mnemonic::NOP, Mnemonic::Nop),
        (mnemonic::NOT, Mnemonic::Not),
        (mnemonic::OR, Mnemonic::Or),
        (mnemonic::PAUSE, Mnemonic::Pause),
        (mnemonic::POP, Mnemonic::Pop),
        (mnemonic::POPFQ, Mnemonic::Popfq),
        (mnemonic::PREFETCHNTA, Mnemonic::Prefetchnta),
        (mnemonic::PREFETCHW, Mnemonic::Prefetchw),
        (mnemonic::PUSH, Mnemonic::Push),
        (mnemonic::PUSHFQ, Mnemonic::Pushfq),
        (mnemonic::PXOR, Mnemonic::Pxor),
        (mnemonic::RDMSR, Mnemonic::Rdmsr),
        (mnemonic::RDSSPD, Mnemonic::Rdsspd),
        (mnemonic::RDSSPQ, Mnemonic::Rdsspq),
        (mnemonic::RDTSC, Mnemonic::Rdtsc),
        (mnemonic::RDTSCP, Mnemonic::Rdtscp),
        (mnemonic::RET, Mnemonic::Ret),
        (mnemonic::ROL, Mnemonic::Rol),
        (mnemonic::ROR, Mnemonic::Ror),
        (mnemonic::SAR, Mnemonic::Sar),
        (mnemonic::SBB, Mnemonic::Sbb),
        (mnemonic::SETA, Mnemonic::Seta),
        (mnemonic::SETAE, Mnemonic::Setae),
        (mnemonic::SETB, Mnemonic::Setb),
        (mnemonic::SETBE, Mnemonic::Setbe),
        (mnemonic::SETE, Mnemonic::Sete),
        (mnemonic::SETG, Mnemonic::Setg),
        (mnemonic::SETGE, Mnemonic::Setge),
        (mnemonic::SETL, Mnemonic::Setl),
        (mnemonic::SETLE, Mnemonic::Setle),
        (mnemonic::SETNE, Mnemonic::Setne),
        (mnemonic::SETNO, Mnemonic::Setno),
        (mnemonic::SETNP, Mnemonic::Setnp),
        (mnemonic::SETNS, Mnemonic::Setns),
        (mnemonic::SETO, Mnemonic::Seto),
        (mnemonic::SETP, Mnemonic::Setp),
        (mnemonic::SETS, Mnemonic::Sets),
        (mnemonic::SFENCE, Mnemonic::Sfence),
        (mnemonic::SHL, Mnemonic::Shl),
        (mnemonic::SHR, Mnemonic::Shr),
        (mnemonic::SUB, Mnemonic::Sub),
        (mnemonic::SYSCALL, Mnemonic::Syscall),
        (mnemonic::SYSENTER, Mnemonic::Sysenter),
        (mnemonic::SYSEXIT, Mnemonic::Sysexit),
        (mnemonic::SYSEXITQ, Mnemonic::Sysexitq),
        (mnemonic::SYSRET, Mnemonic::Sysret),
        (mnemonic::SYSRETQ, Mnemonic::Sysretq),
        (mnemonic::TEST, Mnemonic::Test),
        (mnemonic::UD0, Mnemonic::Ud0),
        (mnemonic::UD1, Mnemonic::Ud1),
        (mnemonic::UD2, Mnemonic::Ud2),
        (mnemonic::VMLAUNCH, Mnemonic::Vmlaunch),
        (mnemonic::VMRESUME, Mnemonic::Vmresume),
        (mnemonic::VMXOFF, Mnemonic::Vmxoff),
        (mnemonic::WBINVD, Mnemonic::Wbinvd),
        (mnemonic::WRMSR, Mnemonic::Wrmsr),
        (mnemonic::XCHG, Mnemonic::Xchg),
        (mnemonic::XOR, Mnemonic::Xor),
        (mnemonic::XORPD, Mnemonic::Xorpd),
        (mnemonic::XORPS, Mnemonic::Xorps),
    ];
    for (n, m) in table {
        assert_eq!(n, m as u32, "{m:?}");
    }
}

#[test]
fn registers_and_operand_kinds_have_the_decoders_numbers() {
    let registers = [
        (NO_REGISTER, Register::None),
        (AL, Register::AL),
        (AH, Register::AH),
        (SPL, Register::SPL),
        (AX, Register::AX),
        (DX, Register::DX),
        (EAX, Register::EAX),
        (EDX, Register::EDX),
        (RAX, Register::RAX),
        (RDX, Register::RDX),
        (EIP, Register::EIP),
        (RIP, Register::RIP),
        (FS, Register::FS),
        (GS, Register::GS),
        (XMM_FIRST, Register::XMM0),
        (YMM_FIRST, Register::YMM0),
        (ZMM_FIRST, Register::ZMM0),
    ];
    for (n, r) in registers {
        assert_eq!(n, r as u32, "{r:?}");
    }
    let kinds = [
        (REGISTER, OpKind::Register),
        (NEAR_BRANCH_16, OpKind::NearBranch16),
        (NEAR_BRANCH_64, OpKind::NearBranch64),
        (IMMEDIATE_8, OpKind::Immediate8),
        (IMMEDIATE_8_2ND, OpKind::Immediate8_2nd),
        (IMMEDIATE_16, OpKind::Immediate16),
        (IMMEDIATE_32, OpKind::Immediate32),
        (IMMEDIATE_64, OpKind::Immediate64),
        (IMMEDIATE_8_TO_16, OpKind::Immediate8to16),
        (IMMEDIATE_8_TO_32, OpKind::Immediate8to32),
        (IMMEDIATE_8_TO_64, OpKind::Immediate8to64),
        (IMMEDIATE_32_TO_64, OpKind::Immediate32to64),
        (MEMORY, OpKind::Memory),
    ];
    for (n, k) in kinds {
        assert_eq!(n, k as u32, "{k:?}");
    }
}

#[test]
fn every_part_register_belongs_to_its_whole() {
    for r in Register::values() {
        let part = decode_reg(r as u32);
        assert_eq!(part.is_some(), r.is_gpr(), "{r:?}");
        if let Some((reg, byte, width)) = part {
            assert_eq!(reg.number() as usize, r.full_register().number(), "{r:?}");
            assert_eq!(width.bytes() as usize, r.size(), "{r:?}");
            let high = matches!(r, Register::AH | Register::CH | Register::DH | Register::BH);
            assert_eq!(byte == 1, high, "{r:?}");
        }
        assert_eq!(xmm_index(r as u32).is_some(), r.is_xmm(), "{r:?}");
        assert_eq!(vector_index(r as u32).is_some(), r.is_ymm() || r.is_zmm(), "{r:?}");
    }
    assert_eq!(xmm_index(Register::XMM7 as u32), Some(7));
    assert_eq!(vector_index(Register::YMM9 as u32), Some(9));
}

#[test]
fn an_instruction_is_read_with_its_operands() {
    // mov rax, [rcx+rdx*4+10h]
    let i = inst(&[0x48, 0x8b, 0x44, 0x91, 0x10]);
    assert_eq!(i.head.mnemonic, Mnemonic::Mov as u32);
    assert_eq!((i.head.len, i.head.next_ip, i.head.op_count), (5, 0x1005, 2));
    assert_eq!(i.head.base, Register::RCX as u32);
    assert_eq!(i.head.index, Register::RDX as u32);
    assert_eq!((i.head.scale, i.head.displacement), (4, 0x10));
    assert_eq!(i.head.memory_bytes, 8);
    assert_eq!(i.ops[0].kind, OpKind::Register as u32);
    assert_eq!(i.ops[0].register, Register::RAX as u32);
    assert_eq!(i.ops[1].kind, OpKind::Memory as u32);
    assert_eq!((i.op_width(0), i.op_width(1)), (Width::W64, Width::W64));
    assert_eq!(i.memory_width(), Width::W64);
    assert!(i.plain_memory());
    assert_eq!(i.text(), "mov rax,[rcx+rdx*4+10h]");
}

#[test]
fn immediates_are_extended_as_the_encoding_says() {
    // add rax, -1
    let i = inst(&[0x48, 0x83, 0xc0, 0xff]);
    assert_eq!(i.ops[1].immediate, u64::MAX);
    // mov al, 0ffh
    let i = inst(&[0xb0, 0xff]);
    assert_eq!(i.ops[1].immediate, 0xff);
    assert_eq!(i.text(), "mov al,0FFh");
}

#[test]
fn branches_tell_where_they_go() {
    // jmp short $+2+5
    let i = inst(&[0xeb, 0x05]);
    assert_eq!(i.direct_target(), Some(0x1007));
    // call rax
    let i = inst(&[0xff, 0xd0]);
    assert_eq!(i.direct_target(), None);
}

#[test]
fn bytes_that_are_no_instruction_are_refused() {
    assert!(Inst::decode(vec![0x06], 0x1000).is_none());
    assert!(Inst::decode(vec![0x48, 0x8b], 0x1000).is_none());
    assert!(Inst::decode(Vec::new(), 0x1000).is_none());
}

#[test]
fn decoding_reads_from_the_image() {
    let pe = Image {
        sections: vec![Section {
            name: ".text".into(),
            start: 0x1000,
            virtual_size: 0x100,
            raw_size: 3,
            data: vec![0x90, 0xc3, 0x48],
            writable: false,
            executable: true,
        }],
        imports: Vec::new(),
        functions: Vec::new(),
    };
    assert_eq!(decode_at(&pe, 0x1000).unwrap().head.mnemonic, Mnemonic::Nop as u32);
    assert_eq!(decode_at(&pe, 0x1001).unwrap().text(), "ret");
    // Cut off by the end of the file's contents, past them, and outside the image.
    assert!(decode_at(&pe, 0x1002).is_none());
    assert!(decode_at(&pe, 0x1003).is_none());
    assert!(decode_at(&pe, 0x2000).is_none());
}

#[test]
fn conditions_are_told_apart() {
    assert_eq!(jcc_cc(Mnemonic::Je as u32), Some(ConditionCode::E));
    assert_eq!(jcc_cc(Mnemonic::Jmp as u32), None);
    assert_eq!(setcc_cc(Mnemonic::Setae as u32), jcc_cc(Mnemonic::Jae as u32));
    assert_eq!(cmov_cc(Mnemonic::Cmovg as u32), jcc_cc(Mnemonic::Jg as u32));
    assert_eq!(cmov_cc(Mnemonic::Mov as u32), None);
    assert!(is_boxable(Mnemonic::Cpuid as u32));
    assert!(!is_boxable(Mnemonic::Sysenter as u32));
}

/// What a boxed instruction destroys is what the decoder's register list says it writes.
#[test]
fn a_boxed_instruction_destroys_what_it_writes() {
    let boxed = |bytes: Vec<u8>| SchedBlock {
        id: BlockId { handler: 0, vip: None },
        instrs: vec![Instr::Boxed {
            site: 0x2000,
            text: String::new(),
            bytes,
            mem: None,
            uses: Vec::new(),
        }],
        exits: Vec::new(),
        callee_set: Vec::new(),
        control: None,
        fused: None,
        terminator: Terminator::AdoptedReturn,
    };
    // rdtsc writes rax and rdx.
    let cs = clobber_points(&boxed(vec![0x0f, 0x31]));
    assert_eq!(cs.len(), 1);
    let regs = cs[0].regs.expect("a boxed instruction names what it destroys");
    for r in [Reg::Rax, Reg::Rdx] {
        assert!(regs.contains(r), "{r:?}");
    }
    for r in [Reg::Rcx, Reg::Rbx, Reg::Rsi] {
        assert!(!regs.contains(r), "{r:?}");
    }
    // lfence writes nothing.
    assert!(clobber_points(&boxed(vec![0x0f, 0xae, 0xe8])).is_empty());
}
