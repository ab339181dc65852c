//! The kernel-side packet filter, as a classic BPF program.
//!
//! Uninteresting packets are discarded in the kernel instead of being copied to
//! userspace and thrown away there. The filter is deliberately conservative: it
//! only ever drops what userspace would also have dropped. What takes walking,
//! VLAN tags and IPv6 extension headers, is passed up for the userspace parser
//! rather than judged here.
use vstd::prelude::*;

use crate::bytes::{add64, be16_at, off_plus};
use crate::pkt::{
    behind_tags, ipv4_in, ipv6_in, segment_in, ETHERTYPE_IPV4, ETHERTYPE_IPV6, ETHERTYPE_QINQ,
    ETHERTYPE_VLAN, IPPROTO_TCP,
};

verus! {

/// Largest port list we will express as a filter. Each port costs four
/// comparisons, and classic BPF jump offsets are a single byte, so a very long
/// list cannot be encoded. Beyond this we fall back to userspace filtering
/// rather than emit a filter that might be wrong.
pub const MAX_FILTER_PORTS: usize = 60;

pub const BPF_LD_H_ABS: u16 = 0x28;

pub const BPF_LD_B_ABS: u16 = 0x30;

pub const BPF_LD_H_IND: u16 = 0x48;

pub const BPF_LDX_B_MSH: u16 = 0xb1;

pub const BPF_JEQ_K: u16 = 0x15;

pub const BPF_JSET_K: u16 = 0x45;

pub const BPF_RET_K: u16 = 0x06;

/// The verdict that keeps the whole frame.
pub const ACCEPT: u32 = 0xffff_ffff;

/// One instruction.
#[derive(Debug, Clone, Copy, PartialEq, Eq, Structural)]
pub struct Instr {
    pub code: u16,
    pub jt: u8,
    pub jf: u8,
    pub k: u32,
}

// ---------------------------------------------------------------------------
// The machine
// ---------------------------------------------------------------------------

/// The verdict that a program reaches on a packet from instruction `pc` on, with
/// the accumulator at `a` and the index register at `x`. A load beyond the
/// packet's end drops it.
pub open spec fn verdict_from(prog: Seq<Instr>, pkt: Seq<u8>, pc: int, a: u32, x: u32) -> u32
    decreases
            (if pc < prog.len() {
                prog.len() - pc
            } else {
                0
            }),
{
    if pc < 0 || pc >= prog.len() {
        0
    } else {
        let i = prog[pc];
        if i.code == BPF_LD_H_ABS {
            if i.k + 2 <= pkt.len() {
                verdict_from(prog, pkt, pc + 1, be16_at(pkt, i.k as int) as u32, x)
            } else {
                0
            }
        } else if i.code == BPF_LD_B_ABS {
            if i.k + 1 <= pkt.len() {
                verdict_from(prog, pkt, pc + 1, pkt[i.k as int] as u32, x)
            } else {
                0
            }
        } else if i.code == BPF_LD_H_IND {
            if x + i.k + 2 <= pkt.len() {
                verdict_from(prog, pkt, pc + 1, be16_at(pkt, x + i.k) as u32, x)
            } else {
                0
            }
        } else if i.code == BPF_LDX_B_MSH {
            if i.k + 1 <= pkt.len() {
                verdict_from(prog, pkt, pc + 1, a, (4 * (pkt[i.k as int] % 16)) as u32)
            } else {
                0
            }
        } else if i.code == BPF_JEQ_K {
            if a == i.k {
                verdict_from(prog, pkt, pc + 1 + i.jt, a, x)
            } else {
                verdict_from(prog, pkt, pc + 1 + i.jf, a, x)
            }
        } else if i.code == BPF_JSET_K {
            if a & i.k != 0 {
                verdict_from(prog, pkt, pc + 1 + i.jt, a, x)
            } else {
                verdict_from(prog, pkt, pc + 1 + i.jf, a, x)
            }
        } else if i.code == BPF_RET_K {
            i.k
        } else {
            0
        }
    }
}

/// The verdict of a program on a packet.
pub open spec fn verdict(prog: Seq<Instr>, pkt: Seq<u8>) -> u32 {
    verdict_from(prog, pkt, 0, 0, 0)
}

/// Whether every jump lands inside the program, and it cannot run off its end.
pub open spec fn well_formed(prog: Seq<Instr>) -> bool {
    &&& prog.len() > 0
    &&& prog.last().code == BPF_RET_K
    &&& forall|i: int|
        0 <= i < prog.len() ==> {
            ||| (#[trigger] prog[i]).code == BPF_RET_K
            ||| i + 1 + prog[i].jt < prog.len() && i + 1 + prog[i].jf < prog.len()
        }
}

// ---------------------------------------------------------------------------
// What is wanted
// ---------------------------------------------------------------------------

/// Whether one of the two port numbers at offset `off` is watched.
pub open spec fn watched_at(ports: Seq<u16>, pkt: Seq<u8>, off: int) -> bool {
    &&& off + 2 <= pkt.len()
    &&& ports.contains(be16_at(pkt, off) as u16) || (off + 4 <= pkt.len() && ports.contains(
        be16_at(pkt, off + 2) as u16,
    ))
}

/// An IPv4 packet that is TCP on a watched port and no fragment. Don't-fragment
/// is not a fragment.
pub open spec fn wanted_v4(ports: Seq<u16>, pkt: Seq<u8>) -> bool {
    &&& pkt.len() >= 24
    &&& pkt[23] == IPPROTO_TCP
    &&& be16_at(pkt, 20) % 0x4000 == 0
    &&& watched_at(ports, pkt, 14 + 4 * (pkt[14] % 16))
}

/// Whether an IPv6 next header is an extension that userspace can walk.
pub open spec fn is_extension(next: u8) -> bool {
    next == 0 || next == 43 || next == 60 || next == 135
}

/// An IPv6 packet that is TCP on a watched port, or that takes walking.
pub open spec fn wanted_v6(ports: Seq<u16>, pkt: Seq<u8>) -> bool {
    &&& pkt.len() >= 21
    &&& is_extension(pkt[20]) || (pkt[20] == IPPROTO_TCP && watched_at(ports, pkt, 54))
}

/// The packets that the filter accepts: TCP (v4 or v6) on any of `ports`, in
/// either direction, and what only userspace can judge.
pub open spec fn wanted(ports: Seq<u16>, pkt: Seq<u8>) -> bool {
    pkt.len() >= 14 && ({
        let ethertype = be16_at(pkt, 12);
        if ethertype == ETHERTYPE_IPV4 {
            wanted_v4(ports, pkt)
        } else if ethertype == ETHERTYPE_IPV6 {
            wanted_v6(ports, pkt)
        } else {
            ethertype == ETHERTYPE_VLAN || ethertype == ETHERTYPE_QINQ
        }
    })
}

// ---------------------------------------------------------------------------
// The program
// ---------------------------------------------------------------------------

/// An instruction that does not jump.
spec fn ins_of(code: u16, k: u32) -> Instr {
    Instr { code, jt: 0, jf: 0, k }
}

/// A jump from `here` to one of two targets.
spec fn jump_of(code: u16, k: u32, here: int, yes: int, no: int) -> Instr {
    Instr { code, jt: (yes - here - 1) as u8, jf: (no - here - 1) as u8, k }
}

/// The instruction in place `i` of the program for `ports`. Both branches end in
/// verdicts of their own, so that no jump is longer than one branch.
spec fn instr_at(ports: Seq<u16>, i: int) -> Instr {
    let n = ports.len() as int;
    let drop4 = 12 + 2 * n;
    let accept4 = drop4 + 1;
    let v6 = accept4 + 1;
    let drop6 = v6 + 8 + 2 * n;
    let accept6 = drop6 + 1;
    if i == 0 {
        ins_of(BPF_LD_H_ABS, 12)
    } else if i == 1 {
        jump_of(BPF_JEQ_K, 0x0800, 1, 5, 2)
    } else if i == 2 {
        jump_of(BPF_JEQ_K, 0x86dd, 2, v6, 3)
    } else if i == 3 {
        jump_of(BPF_JEQ_K, 0x8100, 3, accept4, 4)
    } else if i == 4 {
        jump_of(BPF_JEQ_K, 0x88a8, 4, accept4, drop4)
    } else if i == 5 {
        ins_of(BPF_LD_B_ABS, 23)
    } else if i == 6 {
        jump_of(BPF_JEQ_K, 6, 6, 7, drop4)
    } else if i == 7 {
        ins_of(BPF_LD_H_ABS, 20)
    } else if i == 8 {
        jump_of(BPF_JSET_K, 0x3fff, 8, drop4, 9)
    } else if i == 9 {
        ins_of(BPF_LDX_B_MSH, 14)
    } else if i == 10 {
        ins_of(BPF_LD_H_IND, 14)
    } else if i < 11 + n {
        jump_of(BPF_JEQ_K, ports[i - 11] as u32, i, accept4, i + 1)
    } else if i == 11 + n {
        ins_of(BPF_LD_H_IND, 16)
    } else if i < drop4 {
        jump_of(BPF_JEQ_K, ports[i - 12 - n] as u32, i, accept4, i + 1)
    } else if i == drop4 {
        ins_of(BPF_RET_K, 0)
    } else if i == accept4 {
        ins_of(BPF_RET_K, ACCEPT)
    } else if i == v6 {
        ins_of(BPF_LD_B_ABS, 20)
    } else if i == v6 + 1 {
        jump_of(BPF_JEQ_K, 6, i, v6 + 6, v6 + 2)
    } else if i == v6 + 2 {
        jump_of(BPF_JEQ_K, 0, i, accept6, v6 + 3)
    } else if i == v6 + 3 {
        jump_of(BPF_JEQ_K, 43, i, accept6, v6 + 4)
    } else if i == v6 + 4 {
        jump_of(BPF_JEQ_K, 60, i, accept6, v6 + 5)
    } else if i == v6 + 5 {
        jump_of(BPF_JEQ_K, 135, i, accept6, drop6)
    } else if i == v6 + 6 {
        ins_of(BPF_LD_H_ABS, 54)
    } else if i < v6 + 7 + n {
        jump_of(BPF_JEQ_K, ports[i - v6 - 7] as u32, i, accept6, i + 1)
    } else if i == v6 + 7 + n {
        ins_of(BPF_LD_H_ABS, 56)
    } else if i < drop6 {
        jump_of(BPF_JEQ_K, ports[i - v6 - 8 - n] as u32, i, accept6, i + 1)
    } else if i == drop6 {
        ins_of(BPF_RET_K, 0)
    } else {
        ins_of(BPF_RET_K, ACCEPT)
    }
}

/// The program for `ports`.
spec fn program(ports: Seq<u16>) -> Seq<Instr> {
    Seq::new((24 + 4 * ports.len()) as nat, |i: int| instr_at(ports, i))
}

fn ins(code: u16, k: u32) -> (r: Instr)
    ensures
        r == ins_of(code, k),
{
    Instr { code, jt: 0, jf: 0, k }
}

fn jmp(code: u16, k: u32, here: usize, yes: usize, no: usize) -> (r: Instr)
    requires
        here < yes <= here + 256,
        here < no <= here + 256,
        here < 1000,
    ensures
        r == jump_of(code, k, here as int, yes as int, no as int),
{
    Instr { code, jt: (yes - here - 1) as u8, jf: (no - here - 1) as u8, k }
}

/// Appends comparisons with every port, which go to `accept` where one is equal.
fn push_ports(out: &mut Vec<Instr>, ports: &[u16], accept: usize)
    requires
        ports@.len() <= MAX_FILTER_PORTS,
        old(out)@.len() + ports@.len() <= accept <= old(out)@.len() + 256,
        old(out)@.len() < 500,
    ensures
        final(out)@.len() == old(out)@.len() + ports@.len(),
        forall|i: int| 0 <= i < old(out)@.len() ==> final(out)@[i] == old(out)@[i],
        forall|i: int|
            old(out)@.len() <= i < old(out)@.len() + ports@.len() ==> #[trigger] final(out)@[i]
                == jump_of(
                BPF_JEQ_K,
                ports@[i - old(out)@.len()] as u32,
                i,
                accept as int,
                i + 1,
            ),
{
    let ghost start = out@;
    let mut j: usize = 0;
    while j < ports.len()
        invariant
            ports@.len() <= MAX_FILTER_PORTS,
            start == old(out)@,
            start.len() + ports@.len() <= accept <= start.len() + 256,
            start.len() < 500,
            j <= ports@.len(),
            out@.len() == start.len() + j,
            forall|i: int| 0 <= i < start.len() ==> out@[i] == start[i],
            forall|i: int|
                start.len() <= i < start.len() + j ==> #[trigger] out@[i] == jump_of(
                    BPF_JEQ_K,
                    ports@[i - start.len()] as u32,
                    i,
                    accept as int,
                    i + 1,
                ),
        decreases ports@.len() - j,
    {
        let here: usize = out.len();
        out.push(jmp(BPF_JEQ_K, ports[j] as u32, here, accept, here + 1));
        j += 1;
    }
}

/// Appends the dispatch on the ethertype and the branch for IPv4.
fn push_v4(p: &mut Vec<Instr>, ports: &[u16])
    requires
        ports@.len() <= MAX_FILTER_PORTS,
        old(p)@.len() == 0,
    ensures
        final(p)@.len() == 14 + 2 * ports@.len(),
        forall|i: int| 0 <= i < final(p)@.len() ==> #[trigger] final(p)@[i] == instr_at(ports@, i),
{
    let n: usize = ports.len();
    let drop4: usize = 12 + 2 * n;
    let accept4: usize = drop4 + 1;
    // --- dispatch on ethertype ---
    p.push(ins(BPF_LD_H_ABS, 12));
    p.push(jmp(BPF_JEQ_K, 0x0800, 1, 5, 2));
    p.push(jmp(BPF_JEQ_K, 0x86dd, 2, accept4 + 1, 3));
    p.push(jmp(BPF_JEQ_K, 0x8100, 3, accept4, 4));  // VLAN -> userspace
    p.push(jmp(BPF_JEQ_K, 0x88a8, 4, accept4, drop4));  // QinQ -> userspace
    // --- IPv4 ---
    p.push(ins(BPF_LD_B_ABS, 23));  // protocol
    p.push(jmp(BPF_JEQ_K, 6, 6, 7, drop4));  // TCP only
    p.push(ins(BPF_LD_H_ABS, 20));  // flags + fragment offset
    // Any fragment is dropped, matching the userspace parser, which refuses
    // them rather than mis-parsing a partial header.
    p.push(jmp(BPF_JSET_K, 0x3fff, 8, drop4, 9));
    p.push(ins(BPF_LDX_B_MSH, 14));  // x = IPv4 header length
    p.push(ins(BPF_LD_H_IND, 14));  // source port
    assert forall|i: int| 0 <= i < 11 implies #[trigger] p@[i] == instr_at(ports@, i) by {}
    push_ports(p, ports, accept4);
    p.push(ins(BPF_LD_H_IND, 16));  // destination port
    assert forall|i: int| 0 <= i < 12 + n implies #[trigger] p@[i] == instr_at(ports@, i) by {}
    push_ports(p, ports, accept4);
    p.push(ins(BPF_RET_K, 0));
    p.push(ins(BPF_RET_K, ACCEPT));
}

/// Appends the branch for IPv6.
fn push_v6(p: &mut Vec<Instr>, ports: &[u16])
    requires
        ports@.len() <= MAX_FILTER_PORTS,
        old(p)@.len() == 14 + 2 * ports@.len(),
        forall|i: int| 0 <= i < old(p)@.len() ==> #[trigger] old(p)@[i] == instr_at(ports@, i),
    ensures
        final(p)@ == program(ports@),
{
    let n: usize = ports.len();
    let v6: usize = 14 + 2 * n;
    let drop6: usize = v6 + 8 + 2 * n;
    let accept6: usize = drop6 + 1;
    p.push(ins(BPF_LD_B_ABS, 20));  // next header
    p.push(jmp(BPF_JEQ_K, 6, v6 + 1, v6 + 6, v6 + 2));
    // Extension headers that the userspace parser walks -> userspace
    p.push(jmp(BPF_JEQ_K, 0, v6 + 2, accept6, v6 + 3));
    p.push(jmp(BPF_JEQ_K, 43, v6 + 3, accept6, v6 + 4));
    p.push(jmp(BPF_JEQ_K, 60, v6 + 4, accept6, v6 + 5));
    p.push(jmp(BPF_JEQ_K, 135, v6 + 5, accept6, drop6));
    p.push(ins(BPF_LD_H_ABS, 54));  // source port
    assert forall|i: int| 0 <= i < v6 + 7 implies #[trigger] p@[i] == instr_at(ports@, i) by {}
    push_ports(p, ports, accept6);
    p.push(ins(BPF_LD_H_ABS, 56));  // destination port
    assert forall|i: int| 0 <= i < v6 + 8 + n implies #[trigger] p@[i] == instr_at(
        ports@,
        i,
    ) by {}
    push_ports(p, ports, accept6);
    p.push(ins(BPF_RET_K, 0));
    p.push(ins(BPF_RET_K, ACCEPT));
    assert(p@ =~= program(ports@));
}

/// Build a filter accepting TCP (v4 or v6) on any of `ports`, in either
/// direction, and everything that only userspace can judge.
pub fn build_filter(ports: &[u16]) -> (r: Vec<Instr>)
    requires
        ports@.len() <= MAX_FILTER_PORTS,
    ensures
        well_formed(r@),
        r@.len() <= 24 + 4 * MAX_FILTER_PORTS,
        forall|pkt: Seq<u8>| #[trigger]
            verdict(r@, pkt) == (if wanted(ports@, pkt) {
                ACCEPT
            } else {
                0
            }),
{
    let mut p: Vec<Instr> = Vec::new();
    push_v4(&mut p, ports);
    push_v6(&mut p, ports);
    proof {
        lemma_program_well_formed(ports@);
        assert forall|pkt: Seq<u8>| #[trigger]
            verdict(p@, pkt) == (if wanted(ports@, pkt) {
                ACCEPT
            } else {
                0
            }) by {
            lemma_program_verdict(ports@, pkt);
        }
    }
    p
}

proof fn lemma_program_well_formed(ports: Seq<u16>)
    requires
        ports.len() <= MAX_FILTER_PORTS,
    ensures
        well_formed(program(ports)),
{
}

/// One step of the machine, for an instruction that is known.
proof fn lemma_port_tests(
    prog: Seq<Instr>,
    pkt: Seq<u8>,
    ports: Seq<u16>,
    pc: int,
    j: int,
    accept: int,
    a: u32,
    x: u32,
)
    requires
        0 <= j <= ports.len() <= MAX_FILTER_PORTS,
        0 <= pc,
        pc + ports.len() <= accept < prog.len(),
        accept <= pc + 256,
        prog[accept] == ins_of(BPF_RET_K, ACCEPT),
        forall|i: int|
            0 <= i < ports.len() ==> #[trigger] prog[pc + i] == jump_of(
                BPF_JEQ_K,
                ports[i] as u32,
                pc + i,
                accept,
                pc + i + 1,
            ),
    ensures
        verdict_from(prog, pkt, pc + j, a, x) == (if exists|i: int|
            j <= i < ports.len() && #[trigger] ports[i] == a {
            ACCEPT
        } else {
            verdict_from(prog, pkt, pc + ports.len(), a, x)
        }),
    decreases ports.len() - j,
{
    if j < ports.len() {
        lemma_port_tests(prog, pkt, ports, pc, j + 1, accept, a, x);
        let i = prog[pc + j];
        if ports[j] == a {
            assert(verdict_from(prog, pkt, accept, a, x) == ACCEPT);
        }
    }
}

proof fn lemma_contains_number(ports: Seq<u16>, a: u32)
    requires
        a < 65536,
    ensures
        ports.contains(a as u16) <==> exists|i: int| 0 <= i < ports.len() && #[trigger] ports[i] == a,
{
    if ports.contains(a as u16) {
        let i = ports.index_of(a as u16);
        assert(ports[i] == a);
    }
}

/// Two loads, each followed by comparisons with every port.
proof fn lemma_two_ports(
    prog: Seq<Instr>,
    pkt: Seq<u8>,
    ports: Seq<u16>,
    pc: int,
    off: int,
    a: u32,
    x: u32,
)
    requires
        ports.len() <= MAX_FILTER_PORTS,
        0 <= pc,
        pc + 2 * ports.len() + 4 <= prog.len(),
        0 <= off,
        ({
            let n = ports.len() as int;
            let code = prog[pc].code;
            let base = if code == BPF_LD_H_IND {
                x as int
            } else {
                0
            };
            &&& code == BPF_LD_H_ABS || code == BPF_LD_H_IND
            &&& prog[pc].k + base == off
            &&& prog[pc + 1 + n].code == code
            &&& prog[pc + 1 + n].k + base == off + 2
            &&& prog[pc + 2 + 2 * n] == ins_of(BPF_RET_K, 0)
            &&& prog[pc + 3 + 2 * n] == ins_of(BPF_RET_K, ACCEPT)
            &&& forall|i: int|
                0 <= i < n ==> #[trigger] prog[pc + 1 + i] == jump_of(
                    BPF_JEQ_K,
                    ports[i] as u32,
                    pc + 1 + i,
                    pc + 3 + 2 * n,
                    pc + 1 + i + 1,
                )
            &&& forall|i: int|
                0 <= i < n ==> #[trigger] prog[pc + 2 + n + i] == jump_of(
                    BPF_JEQ_K,
                    ports[i] as u32,
                    pc + 2 + n + i,
                    pc + 3 + 2 * n,
                    pc + 2 + n + i + 1,
                )
        }),
    ensures
        verdict_from(prog, pkt, pc, a, x) == (if watched_at(ports, pkt, off) {
            ACCEPT
        } else {
            0
        }),
{
    let n = ports.len() as int;
    let accept = pc + 3 + 2 * n;
    if off + 2 <= pkt.len() {
        let s = be16_at(pkt, off) as u32;
        lemma_port_tests(prog, pkt, ports, pc + 1, 0, accept, s, x);
        lemma_contains_number(ports, s);
        if off + 4 <= pkt.len() {
            let d = be16_at(pkt, off + 2) as u32;
            lemma_port_tests(prog, pkt, ports, pc + 2 + n, 0, accept, d, x);
            lemma_contains_number(ports, d);
        }
    }
}

proof fn lemma_v4_branch(ports: Seq<u16>, pkt: Seq<u8>, a: u32)
    requires
        ports.len() <= MAX_FILTER_PORTS,
        pkt.len() >= 14,
    ensures
        verdict_from(program(ports), pkt, 5, a, 0) == (if wanted_v4(ports, pkt) {
            ACCEPT
        } else {
            0
        }),
{
    let prog = program(ports);
    let n = ports.len() as int;
    let drop4 = 12 + 2 * n;
    assert(forall|y: u32, z: u32| verdict_from(prog, pkt, drop4, y, z) == 0);
    if pkt.len() >= 24 {
        let proto = pkt[23] as u32;
        assert(prog[5] == ins_of(BPF_LD_B_ABS, 23));
        assert(prog[6] == jump_of(BPF_JEQ_K, 6, 6, 7, drop4));
        assert(prog[7] == ins_of(BPF_LD_H_ABS, 20));
        assert(prog[8] == jump_of(BPF_JSET_K, 0x3fff, 8, drop4, 9));
        assert(prog[9] == ins_of(BPF_LDX_B_MSH, 14));
        let frag = be16_at(pkt, 20) as u32;
        let x = (4 * (pkt[14] % 16)) as u32;
        assert((frag & 0x3fff != 0) == (frag % 0x4000 != 0)) by (bit_vector);
        lemma_two_ports(prog, pkt, ports, 10, 14 + x, frag, x);
        assert(verdict_from(prog, pkt, 9, frag, 0) == verdict_from(prog, pkt, 10, frag, x));
        assert(verdict_from(prog, pkt, 8, frag, 0) == (if frag & 0x3fff != 0 {
            verdict_from(prog, pkt, drop4, frag, 0)
        } else {
            verdict_from(prog, pkt, 9, frag, 0)
        }));
        assert(verdict_from(prog, pkt, 7, proto, 0) == verdict_from(prog, pkt, 8, frag, 0));
        assert(verdict_from(prog, pkt, 6, proto, 0) == (if proto == 6 {
            verdict_from(prog, pkt, 7, proto, 0)
        } else {
            verdict_from(prog, pkt, drop4, proto, 0)
        }));
    }
}

proof fn lemma_v6_branch(ports: Seq<u16>, pkt: Seq<u8>, a: u32)
    requires
        ports.len() <= MAX_FILTER_PORTS,
        pkt.len() >= 14,
    ensures
        verdict_from(program(ports), pkt, 14 + 2 * (ports.len() as int), a, 0) == (if wanted_v6(
            ports,
            pkt,
        ) {
            ACCEPT
        } else {
            0
        }),
{
    let prog = program(ports);
    let n = ports.len() as int;
    let v6 = 14 + 2 * n;
    let drop6 = v6 + 8 + 2 * n;
    let accept6 = drop6 + 1;
    if pkt.len() >= 21 {
        let next = pkt[20] as u32;
        assert(prog[v6] == ins_of(BPF_LD_B_ABS, 20));
        assert(prog[v6 + 1] == jump_of(BPF_JEQ_K, 6, v6 + 1, v6 + 6, v6 + 2));
        assert(prog[v6 + 2] == jump_of(BPF_JEQ_K, 0, v6 + 2, accept6, v6 + 3));
        assert(prog[v6 + 3] == jump_of(BPF_JEQ_K, 43, v6 + 3, accept6, v6 + 4));
        assert(prog[v6 + 4] == jump_of(BPF_JEQ_K, 60, v6 + 4, accept6, v6 + 5));
        assert(prog[v6 + 5] == jump_of(BPF_JEQ_K, 135, v6 + 5, accept6, drop6));
        assert(verdict_from(prog, pkt, accept6, next, 0) == ACCEPT);
        assert(verdict_from(prog, pkt, drop6, next, 0) == 0);
        lemma_two_ports(prog, pkt, ports, v6 + 6, 54, next, 0);
        assert(verdict_from(prog, pkt, v6, a, 0) == verdict_from(prog, pkt, v6 + 1, next, 0));
        assert(verdict_from(prog, pkt, v6 + 5, next, 0) == (if next == 135 {
            ACCEPT
        } else {
            0
        }));
        assert(verdict_from(prog, pkt, v6 + 4, next, 0) == (if next == 60 {
            ACCEPT
        } else {
            verdict_from(prog, pkt, v6 + 5, next, 0)
        }));
        assert(verdict_from(prog, pkt, v6 + 3, next, 0) == (if next == 43 {
            ACCEPT
        } else {
            verdict_from(prog, pkt, v6 + 4, next, 0)
        }));
        assert(verdict_from(prog, pkt, v6 + 2, next, 0) == (if next == 0 {
            ACCEPT
        } else {
            verdict_from(prog, pkt, v6 + 3, next, 0)
        }));
    }
}

proof fn lemma_program_verdict(ports: Seq<u16>, pkt: Seq<u8>)
    requires
        ports.len() <= MAX_FILTER_PORTS,
    ensures
        verdict(program(ports), pkt) == (if wanted(ports, pkt) {
            ACCEPT
        } else {
            0
        }),
{
    let prog = program(ports);
    let n = ports.len() as int;
    let drop4 = 12 + 2 * n;
    let accept4 = drop4 + 1;
    let v6 = accept4 + 1;
    assert(prog[0] == ins_of(BPF_LD_H_ABS, 12));
    if pkt.len() >= 14 {
        let et = be16_at(pkt, 12) as u32;
        lemma_v4_branch(ports, pkt, et);
        lemma_v6_branch(ports, pkt, et);
        assert(prog[1] == jump_of(BPF_JEQ_K, 0x0800, 1, 5, 2));
        assert(prog[2] == jump_of(BPF_JEQ_K, 0x86dd, 2, v6, 3));
        assert(prog[3] == jump_of(BPF_JEQ_K, 0x8100, 3, accept4, 4));
        assert(prog[4] == jump_of(BPF_JEQ_K, 0x88a8, 4, accept4, drop4));
        assert(verdict_from(prog, pkt, accept4, et, 0) == ACCEPT);
        assert(verdict_from(prog, pkt, drop4, et, 0) == 0);
        assert(verdict_from(prog, pkt, 4, et, 0) == (if et == 0x88a8 {
            ACCEPT
        } else {
            0
        }));
        assert(verdict_from(prog, pkt, 3, et, 0) == (if et == 0x8100 {
            ACCEPT
        } else {
            verdict_from(prog, pkt, 4, et, 0)
        }));
        assert(verdict_from(prog, pkt, 2, et, 0) == (if et == 0x86dd {
            verdict_from(prog, pkt, v6, et, 0)
        } else {
            verdict_from(prog, pkt, 3, et, 0)
        }));
        assert(verdict_from(prog, pkt, 1, et, 0) == (if et == 0x0800 {
            verdict_from(prog, pkt, 5, et, 0)
        } else {
            verdict_from(prog, pkt, 2, et, 0)
        }));
    }
}

/// The filter that goes to the kernel, if one does: not where it is not asked
/// for, not where every port is watched, and not for a list too long for it.
pub fn filter_for(ports: &[u16], kernel_filter: bool) -> (r: Option<Vec<Instr>>)
    ensures
        r is Some <==> kernel_filter && 0 < ports@.len() <= MAX_FILTER_PORTS,
        r matches Some(prog) ==> well_formed(prog@) && prog@.len() <= 24 + 4 * MAX_FILTER_PORTS
            && forall|pkt: Seq<u8>| #[trigger]
            verdict(prog@, pkt) == (if wanted(ports@, pkt) {
                ACCEPT
            } else {
                0
            }),
{
    if kernel_filter && ports.len() > 0 && ports.len() <= MAX_FILTER_PORTS {
        Some(build_filter(ports))
    } else {
        None
    }
}

// ---------------------------------------------------------------------------
// Laws
// ---------------------------------------------------------------------------

/// The filter only ever drops what userspace would also have dropped: a packet
/// in which userspace finds a TCP segment from or to a watched port is accepted.
pub proof fn law_filter_drops_nothing_wanted(ports: Seq<u16>, pkt: Seq<u8>)
    requires
        segment_in(pkt) is Some,
        ports.contains(segment_in(pkt)->Some_0.src_port) || ports.contains(
            segment_in(pkt)->Some_0.dst_port,
        ),
    ensures
        wanted(ports, pkt),
{
    let et = be16_at(pkt, 12);
    if et != ETHERTYPE_VLAN && et != ETHERTYPE_QINQ {
        assert(behind_tags(pkt, et, 14) == Some((et, 14int)));
        let ip = pkt.skip(14);
        let s = segment_in(pkt)->Some_0;
        if et == ETHERTYPE_IPV4 {
            let v = ipv4_in(ip)->Some_0;
            let ihl = (ip[0] % 16) * 4;
            assert(ip[0] == pkt[14]);
            assert(be16_at(ip, 6) == be16_at(pkt, 20));
            assert(ip[9] == pkt[23]);
            assert(v.l4 == ip.skip(ihl));
            assert(v.l4[0] == pkt[14 + ihl]);
            assert(v.l4[1] == pkt[14 + ihl + 1]);
            assert(v.l4[2] == pkt[14 + ihl + 2]);
            assert(v.l4[3] == pkt[14 + ihl + 3]);
        } else {
            let v = ipv6_in(ip)->Some_0;
            assert(ip[6] == pkt[20]);
            if !is_extension(pkt[20]) {
                assert(v.l4 == ip.skip(40));
                assert(v.l4[0] == pkt[54]);
                assert(v.l4[1] == pkt[55]);
                assert(v.l4[2] == pkt[56]);
                assert(v.l4[3] == pkt[57]);
            }
        }
    }
}

/// The converse, as far as the filter judges at all: an untagged packet without
/// extension headers that is accepted, and in which userspace finds a TCP
/// segment, is from or to a watched port.
pub proof fn law_filter_accepts_nothing_else(ports: Seq<u16>, pkt: Seq<u8>)
    requires
        wanted(ports, pkt),
        segment_in(pkt) is Some,
        be16_at(pkt, 12) == ETHERTYPE_IPV4 || (be16_at(pkt, 12) == ETHERTYPE_IPV6
            && !is_extension(pkt[20])),
    ensures
        ports.contains(segment_in(pkt)->Some_0.src_port) || ports.contains(
            segment_in(pkt)->Some_0.dst_port,
        ),
{
    let et = be16_at(pkt, 12);
    assert(behind_tags(pkt, et, 14) == Some((et, 14int)));
    let ip = pkt.skip(14);
    if et == ETHERTYPE_IPV4 {
        let v = ipv4_in(ip)->Some_0;
        let ihl = (ip[0] % 16) * 4;
        assert(ip[0] == pkt[14]);
        assert(v.l4 == ip.skip(ihl));
        assert(v.l4[0] == pkt[14 + ihl]);
        assert(v.l4[1] == pkt[14 + ihl + 1]);
        assert(v.l4[2] == pkt[14 + ihl + 2]);
        assert(v.l4[3] == pkt[14 + ihl + 3]);
    } else {
        let v = ipv6_in(ip)->Some_0;
        assert(ip[6] == pkt[20]);
        assert(v.l4 == ip.skip(40));
        assert(v.l4[0] == pkt[54]);
        assert(v.l4[1] == pkt[55]);
        assert(v.l4[2] == pkt[56]);
        assert(v.l4[3] == pkt[57]);
    }
}

// ---------------------------------------------------------------------------
// Statistics
// ---------------------------------------------------------------------------

/// What the kernel has counted on a socket. Reading the kernel's counters resets
/// them, so they are accumulated here. The totals wrap.
#[derive(Debug, Clone, Copy, PartialEq, Eq, Structural)]
pub struct SocketStats {
    pub packets: u64,
    /// Packets that arrived and were discarded because the receive buffer was
    /// full, i.e. packets we never got the chance to see.
    pub drops: u64,
}

impl SocketStats {
    /// Nothing counted yet.
    pub fn new() -> (r: Self)
        ensures
            r == (SocketStats { packets: 0, drops: 0 }),
    {
        SocketStats { packets: 0, drops: 0 }
    }

    /// What the kernel has counted since it was last asked is added.
    pub fn accumulate(&mut self, packets: u32, drops: u32)
        ensures
            *final(self) == (SocketStats {
                packets: add64(old(self).packets, packets as int),
                drops: add64(old(self).drops, drops as int),
            }),
    {
        self.packets = off_plus(self.packets, packets as u64);
        self.drops = off_plus(self.drops, drops as u64);
    }
}

} // verus!
