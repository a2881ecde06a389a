//! Where memory operands are read and written.

use crate::ir::decode::{Inst, MEMORY, NO_REGISTER};
use crate::ir::event::{Event, Step};
use crate::ir::effects::is_wide;
use crate::ir::expr::{const_of, eval, has, Env, Ref};
use crate::ir::fold::{lemma_mask, wadd, wmul};
use crate::ir::lift::Emulator;
use crate::ir::alu::val;
use crate::ir::machine::{
    addressed, effective_address, lemma_quiet, loaded, memory_read, op_read, op_written, quiet,
    read_at, rebuilt, stored,
};
use crate::ir::meaning::{held, is_plain, is_register, lemma_read, lemma_written, worth};
use crate::ir::mnemonic::{kind, MOV};
use crate::ir::settle::{lemma_constant_value, lemma_join_grows};
use crate::ir::step::evaluates;
use crate::ir::subst::{bytes_at, found_in_memory, lemma_continues_twice};
use crate::ir::transfer::move_steps;
use crate::ir::value::Width;
use crate::ir::words::{lemma_part_read, lemma_wide, range_of_bits};
use crate::ir::x86::register_part;
use crate::vm::branching::leads_here;
use crate::vm::following::{lemma_bytes_ok, lemma_leads_on, rebuilding_keeps_the_value};
use crate::vm::state::{join_bytes, Byte};
use vstd::prelude::*;

verus! {

/// What a register adds to an address, or nothing where there is none.
pub open spec fn share(m: Emulator, code: u32, e: Env) -> int {
    if code == NO_REGISTER {
        0
    } else {
        held(m, code, e)
    }
}

/// The address of a memory operand: base plus scaled index plus displacement, around the end.
pub open spec fn address_of(m: Emulator, inst: Inst, e: Env) -> int {
    (share(m, inst.head.base, e) + share(m, inst.head.index, e) * inst.head.scale
        + inst.head.displacement) % range_of_bits(Width::W64)
}

/// Whether a memory operand is one of plain registers: whole ones, or none.
pub open spec fn is_plain_address(inst: Inst) -> bool {
    &&& is_wide(inst.head.base) || inst.head.base == NO_REGISTER
    &&& is_wide(inst.head.index) || inst.head.index == NO_REGISTER
    &&& inst.head.scale <= 8
}

proof fn lemma_share(m: Emulator, code: u32, e: Env)
    requires
        is_wide(code) || code == NO_REGISTER,
    ensures
        crate::ir::machine::address_part(m, code, e) == share(m, code, e),
{
    if code != NO_REGISTER {
        let (base, offset, w) = register_part(code)->0;
        lemma_part_read(eval(m.arena.nodes@, m.state.reg(base), e), offset, w);
    }
}

proof fn lemma_address(m0: Emulator, inst: Inst, m1: Emulator, a: Ref, e: Env)
    requires
        addressed(m0, inst, m1, a),
        is_plain_address(inst),
    ensures
        val(m1, a, e) == address_of(m0, inst, e),
{
    let h = inst.head;
    lemma_share(m0, h.base, e);
    lemma_share(m0, h.index, e);
    let x = crate::ir::machine::address_part(m0, h.base, e);
    let y = crate::ir::machine::address_part(m0, h.index, e);
    let d = h.displacement;
    let sc = h.scale as u64;
    assert(val(m1, a, e) == effective_address(m0, inst, e));
    assert(h.base != crate::ir::decode::RIP && h.base != crate::ir::decode::EIP);
    lemma_wide(d, x);
    lemma_wide(wadd(d, x), wmul(y, sc));
    crate::ir::known::lemma_wmul_mod(y, sc);
    vstd::arithmetic::div_mod::lemma_add_mod_noop(d + x, y * sc, range_of_bits(Width::W64));
}

/// `mov` to memory: the source is stored at the operand's address, as one event, and no
/// register or flag changes.
#[verifier::spinoff_prover]
pub proof fn a_store_goes_to_its_address(
    m0: Emulator,
    inst: Inst,
    m1: Emulator,
    out: Step,
    w: Width,
    e: Env,
)
    requires
        m0.wf(),
        evaluates(m0, inst, m1, out),
        !inst.seg_relative(),
        inst.head.mnemonic == MOV,
        inst.ops@[0].kind == MEMORY,
        is_plain(inst, 1, w),
        is_plain_address(inst),
        inst.head.memory_bytes as u32 as int == w.bytes(),
    ensures
        out == Step::Next(inst.head.next_ip),
        m1.events@.len() == m0.events@.len() + 1,
        m1.events@.drop_last() == m0.events@,
        m1.events@.last() matches Event::Store { addr, value, width, site, .. } && width == w && site
            == inst.ip && eval(m1.arena.nodes@, addr, e) == address_of(m0, inst, e) && eval(
            m1.arena.nodes@,
            value,
            e,
        ) == worth(m0, inst, 1, w, e),
        m1.state.regs@ == m0.state.regs@,
        m1.state.flags@ == m0.state.flags@,
{
    let k = kind(inst.head.mnemonic);
    let (ma, v, mb, z) = choose|ma: Emulator, v: Ref, mb: Emulator, z: Ref| #[trigger]
        move_steps(m0, inst, k, ma, v, mb, z, m1);
    lemma_read(m0, inst, 1, w, ma, v, e);
    lemma_quiet(m0, ma);
    lemma_quiet(ma, mb);
    assert(val(mb, z, e) == worth(m0, inst, 1, w, e));
    reveal(op_written);
    let (mid, a) = choose|mid: Emulator, a: Ref| #[trigger]
        addressed(mb, inst, mid, a) && stored(
            mid,
            a,
            z,
            crate::ir::decode::width_or_word(inst.head.memory_bytes as u32 as int),
            inst.ip,
            m1,
        );
    lemma_address(mb, inst, mid, a, e);
    lemma_continues_twice(m0.arena, ma.arena, mb.arena);
    lemma_same_address(m0, mb, inst, e);
    assert(m1.events@.drop_last() =~= mid.events@);
    assert(val(mid, z, e) == val(mb, z, e));
}

proof fn lemma_same_address(m0: Emulator, m1: Emulator, inst: Inst, e: Env)
    requires
        m0.wf(),
        m1.arena.continues(m0.arena),
        m1.state == m0.state,
    ensures
        address_of(m1, inst, e) == address_of(m0, inst, e),
{
    crate::ir::meaning::lemma_held_same(m0, m1, inst.head.base, e);
    crate::ir::meaning::lemma_held_same(m0, m1, inst.head.index, e);
}

/// `mov` from memory: the register becomes what memory gives at the operand's address, under
/// all inputs that lead here, whether the machine holds it or the load is recorded.
#[verifier::spinoff_prover]
#[verifier::rlimit(40)]
pub proof fn a_load_comes_from_its_address(
    m0: Emulator,
    inst: Inst,
    m1: Emulator,
    out: Step,
    w: Width,
    e: Env,
)
    requires
        m0.wf(),
        evaluates(m0, inst, m1, out),
        !inst.seg_relative(),
        inst.head.mnemonic == MOV,
        inst.ops@[1].kind == MEMORY,
        is_register(inst, 0, w),
        inst.op_width_spec(0) == w,
        is_plain_address(inst),
        inst.head.memory_bytes as u32 as int == w.bytes(),
        leads_here(m0, e),
    ensures
        out == Step::Next(inst.head.next_ip),
        exists|g: u32|
            held(m1, inst.ops@[0].register, e) == #[trigger] (e.mem)(
                address_of(m0, inst, e) as u64,
                g,
                w,
            ) & w.mask(),
        m1.state.mem@ == m0.state.mem@,
        m1.state.flags@ == m0.state.flags@,
{
    let k = kind(inst.head.mnemonic);
    let (ma, v, mb, z) = choose|ma: Emulator, v: Ref, mb: Emulator, z: Ref| #[trigger]
        move_steps(m0, inst, k, ma, v, mb, z, m1);
    reveal(op_read);
    assert(memory_read(m0, inst, ma, v));
    let (mid, a) = choose|mid: Emulator, a: Ref| #[trigger]
        addressed(m0, inst, mid, a) && loaded(
            mid,
            a,
            crate::ir::decode::width_or_word(inst.head.memory_bytes as u32 as int),
            inst.ip,
            ma,
            v,
        );
    let x = address_of(m0, inst, e) as u64;
    lemma_address(m0, inst, mid, a, e);
    lemma_quiet(m0, mid);
    lemma_leads_on(m0, mid, e);
    let (mr, b) = choose|mr: Emulator, b: Ref| #[trigger]
        rebuilt(mid, a, mr, b) && read_at(mr, b, w, inst.ip, ma, v);
    rebuilding_keeps_the_value(mid, a, mr, b, e);
    assert(val(mr, b, e) == x);
    let g = lemma_given_by_memory(mid, mr, b, w, inst.ip, ma, v, x, e);
    let y = (e.mem)(x, g, w) & w.mask();
    lemma_mask((e.mem)(x, g, w), w.mask());
    assert(val(mb, z, e) == val(ma, v, e));
    lemma_written(mb, inst, 0, w, z, m1, e);
    assert(held(m1, inst.ops@[0].register, e) == y);
}

/// What is read at an address is what memory gives there.
proof fn lemma_given_by_memory(
    m: Emulator,
    mr: Emulator,
    b: Ref,
    w: Width,
    site: u64,
    m1: Emulator,
    v: Ref,
    x: u64,
    e: Env,
) -> (g: u32)
    requires
        m.wf(),
        leads_here(m, e),
        mr.only_rebuilt(m),
        read_at(mr, b, w, site, m1, v),
        val(mr, b, e) == x,
        has(mr.arena.nodes@, b),
    ensures
        val(m1, v, e) == (e.mem)(x, g, w) & w.mask(),
        m1.state == m.state,
        has(m1.arena.nodes@, v),
        m1.arena.continues(mr.arena),
{
    let n0 = m.arena.nodes@;
    let n1 = mr.arena.nodes@;
    assert(crate::ir::expr::ok_at(m1.arena.nodes@, v.idx as int));
    match const_of(n1, b) {
        Some(c) => {
            lemma_constant_value(n1, b, e);
            if found_in_memory(mr.state.mem@, *mr.pe, n1, c, w, m1.arena.nodes@, v) && quiet(mr, m1)
                && crate::ir::subst::foldable(*mr.pe, c, w) {
                let bytes = choose|bytes: Seq<Byte>| #[trigger]
                    bytes_at(mr.state.mem@, *mr.pe, c, bytes) && bytes.len() == w.bytes() && (forall|
                        e: Env,
                    | #[trigger]
                        eval(m1.arena.nodes@, v, e) == join_bytes(n1, bytes, e)) && (
                    crate::vm::load::all_known(bytes) ==> const_of(m1.arena.nodes@, v) is Some);
                assert(bytes_at(m.state.mem@, *m.pe, c, bytes));
                assert((e.mem)(c, 0, w) & w.mask() == join_bytes(n0, bytes, e));
                lemma_bytes_ok(m, c, bytes);
                lemma_join_grows(n0, n1, bytes, e);
                0
            } else {
                assert(eval(m1.arena.nodes@, b, e) == x);
                mr.arena.mem_gen
            }
        },
        None => {
            assert(eval(m1.arena.nodes@, b, e) == x);
            mr.arena.mem_gen
        },
    }
}

} // verus!
