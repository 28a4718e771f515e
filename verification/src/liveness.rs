use vstd::prelude::*;
use crate::addr_map::AddrMap;
use crate::cfg::BasicBlock;
use crate::lc3::{Instr, Line, Nucleus, Operand, instr_regs_ok, nucleus_regs_ok};

verus! {

/// Register sets as bit masks (bit `r` for register `r`): what an instruction
/// defines and uses, and what is live before and after it.
#[derive(Debug, Clone, Copy, PartialEq, Eq, Default)]
pub struct LivenessInfo {
    pub defs: u8,
    pub uses: u8,
    pub live_in: u8,
    pub live_out: u8,
}

/// The mask of register `r`.
pub open spec fn reg_bit(r: u8) -> u8 {
    (1u8 << r) as u8
}

/// The registers an instruction uses and defines, as `(uses, defs)` masks.
/// `AND` with the immediate 0 does not use its first source, as the result
/// does not depend on it; calls define R7, traps use and define R0 and define
/// R7, and `RET` uses R7.
pub open spec fn use_def(i: Instr) -> (u8, u8) {
    match i {
        Instr::Add(d, s, o) => (
            match o {
                Operand::Reg(r) => reg_bit(s) | reg_bit(r),
                Operand::Imm(_) => reg_bit(s),
            },
            reg_bit(d),
        ),
        Instr::And(d, s, o) => (
            match o {
                Operand::Reg(r) => reg_bit(s) | reg_bit(r),
                Operand::Imm(v) => if v == 0 {
                    0u8
                } else {
                    reg_bit(s)
                },
            },
            reg_bit(d),
        ),
        Instr::Not(d, s) => (reg_bit(s), reg_bit(d)),
        Instr::Ld(d, _) | Instr::Ldi(d, _) | Instr::Lea(d, _) => (0u8, reg_bit(d)),
        Instr::Ldr(d, b, _) => (reg_bit(b), reg_bit(d)),
        Instr::St(s, _) | Instr::Sti(s, _) => (reg_bit(s), 0u8),
        Instr::Str(s, b, _) => (reg_bit(s) | reg_bit(b), 0u8),
        Instr::Jmp(b) => (reg_bit(b), 0u8),
        Instr::Jsr(_) => (0u8, reg_bit(7)),
        Instr::Jsrr(b) => (reg_bit(b), reg_bit(7)),
        Instr::Ret => (reg_bit(7), 0u8),
        Instr::Trap(_) => (reg_bit(0), reg_bit(7) | reg_bit(0)),
        _ => (0u8, 0u8),
    }
}

/// Returns the registers an instruction uses and defines, as `(uses, defs)`.
pub fn get_use_def(instr: &Instr) -> (r: (u8, u8))
    requires
        instr_regs_ok(*instr),
    ensures
        r == use_def(*instr),
{
    match *instr {
        Instr::Add(d, s, o) => (
            match o {
                Operand::Reg(r) => (1u8 << s) | (1u8 << r),
                Operand::Imm(_) => 1u8 << s,
            },
            1u8 << d,
        ),
        Instr::And(d, s, o) => (
            match o {
                Operand::Reg(r) => (1u8 << s) | (1u8 << r),
                Operand::Imm(v) => if v == 0 {
                    0u8
                } else {
                    1u8 << s
                },
            },
            1u8 << d,
        ),
        Instr::Not(d, s) => (1u8 << s, 1u8 << d),
        Instr::Ld(d, _) | Instr::Ldi(d, _) | Instr::Lea(d, _) => (0u8, 1u8 << d),
        Instr::Ldr(d, b, _) => (1u8 << b, 1u8 << d),
        Instr::St(s, _) | Instr::Sti(s, _) => (1u8 << s, 0u8),
        Instr::Str(s, b, _) => ((1u8 << s) | (1u8 << b), 0u8),
        Instr::Jmp(b) => (1u8 << b, 0u8),
        Instr::Jsr(_) => (0u8, 1u8 << 7u8),
        Instr::Jsrr(b) => (1u8 << b, 1u8 << 7u8),
        Instr::Ret => (1u8 << 7u8, 0u8),
        Instr::Trap(_) => (1u8 << 0u8, (1u8 << 7u8) | (1u8 << 0u8)),
        _ => (0u8, 0u8),
    }
}

/// The address `i` words after `start`, wrapping around.
pub open spec fn addr_plus(start: u16, i: int) -> u16 {
    ((start as int + i) % 0x10000) as u16
}

/// The local pass over the first `n` words of the block at `start`: the
/// instruction facts recorded so far, and the block's upward-exposed uses and
/// its definitions.
pub open spec fn local_pass(dis: Map<u16, Line>, il: Map<u16, LivenessInfo>, start: u16, n: int) -> (
    Map<u16, LivenessInfo>,
    u8,
    u8,
)
    decreases n,
{
    if n <= 0 {
        (il, 0u8, 0u8)
    } else {
        let (m, u, d) = local_pass(dis, il, start, n - 1);
        let a = addr_plus(start, n - 1);
        if dis.dom().contains(a) && dis[a].nucleus is Instr {
            let (uses, defs) = use_def(dis[a].nucleus->Instr_0);
            (
                m.insert(a, LivenessInfo { defs, uses, live_in: 0, live_out: 0 }),
                u | (uses & !d),
                d | defs,
            )
        } else {
            (m, u, d)
        }
    }
}

/// The local liveness of the blocks of an entry sequence: the instruction
/// facts and, per block, `(uses, defs, 0, 0)`.
pub open spec fn local_liveness(dis: Map<u16, Line>, s: Seq<(u16, BasicBlock)>) -> (
    Map<u16, LivenessInfo>,
    Map<u16, (u8, u8, u8, u8)>,
)
    decreases s.len(),
{
    if s.len() == 0 {
        (Map::empty(), Map::empty())
    } else {
        let (il, bl) = local_liveness(dis, s.drop_last());
        let (k, b) = s.last();
        let (m, u, d) = local_pass(dis, il, k, b.length as int);
        (m, bl.insert(k, (u, d, 0u8, 0u8)))
    }
}

/// Every disassembled line has register numbers below 8.
pub open spec fn dis_regs_ok(dis: Map<u16, Line>) -> bool {
    forall|a: u16| #[trigger] dis.dom().contains(a) ==> nucleus_regs_ok(dis[a].nucleus)
}

/// Computes, for each block on its own, the registers each instruction
/// defines and uses, and the block's upward-exposed uses and definitions.
pub fn compute_local_liveness(blocks: &AddrMap<BasicBlock>, disassembly: &AddrMap<Line>) -> (r: (
    AddrMap<LivenessInfo>,
    AddrMap<(u8, u8, u8, u8)>,
))
    requires
        blocks.wf(),
        disassembly.wf(),
        dis_regs_ok(disassembly.map()),
    ensures
        r.0.wf(),
        r.1.wf(),
        (r.0.map(), r.1.map()) == local_liveness(disassembly.map(), blocks.entries@),
        r.1.map().dom() == blocks.map().dom(),
        forall|k: u16| #[trigger] r.1.map().dom().contains(k) ==> r.1.map()[k].2 == 0 && r.1.map()[k].3 == 0,
        below_equations(blocks.map(), r.1.map()),
{
    let ghost dis = disassembly.map();
    let mut instr_liveness: AddrMap<LivenessInfo> = AddrMap::new();
    let mut block_liveness: AddrMap<(u8, u8, u8, u8)> = AddrMap::new();
    let mut b: usize = 0;
    while b < blocks.len()
        invariant
            blocks.wf(),
            disassembly.wf(),
            dis == disassembly.map(),
            dis_regs_ok(dis),
            instr_liveness.wf(),
            block_liveness.wf(),
            b <= blocks.entries@.len(),
            (instr_liveness.map(), block_liveness.map()) == local_liveness(dis, blocks.entries@.subrange(0, b as int)),
        decreases blocks.entries@.len() - b,
    {
        let block_addr = blocks.entries[b].0;
        let length = blocks.entries[b].1.length;
        let ghost il0 = instr_liveness.map();
        let mut block_use: u8 = 0;
        let mut block_def: u8 = 0;
        let mut i: u16 = 0;
        while i < length
            invariant
                disassembly.wf(),
                dis == disassembly.map(),
                dis_regs_ok(dis),
                instr_liveness.wf(),
                i <= length,
                (instr_liveness.map(), block_use, block_def) == local_pass(dis, il0, block_addr, i as int),
            decreases length - i,
        {
            let addr = block_addr.wrapping_add(i);
            assert(addr == addr_plus(block_addr, i as int));
            match disassembly.get(addr) {
                Some(line) => {
                    match line.nucleus {
                        Nucleus::Instr(instr) => {
                            let (uses, defs) = get_use_def(&instr);
                            block_use = block_use | (uses & !block_def);
                            block_def = block_def | defs;
                            instr_liveness.insert(addr, LivenessInfo { defs, uses, live_in: 0, live_out: 0 });
                        },
                        Nucleus::Directive => {},
                    }
                },
                None => {},
            }
            i = i + 1;
        }
        block_liveness.insert(block_addr, (block_use, block_def, 0, 0));
        proof {
            let s = blocks.entries@.subrange(0, b + 1);
            assert(s.drop_last() =~= blocks.entries@.subrange(0, b as int));
            assert(s.last() == blocks.entries@[b as int]);
        }
        b = b + 1;
    }
    proof {
        assert(blocks.entries@.subrange(0, b as int) =~= blocks.entries@);
        lemma_local_blocks(disassembly.map(), blocks.entries@);
        let ll = local_liveness(disassembly.map(), blocks.entries@).1;
        assert(block_liveness.map() == ll);
        assert forall|k: u16| blocks.map().dom().contains(k) <==> block_liveness.map().dom().contains(k) by {
            if blocks.map().dom().contains(k) {
                let a = blocks.lemma_key(k);
                assert(blocks.entries@[a].0 == k);
                assert(ll.dom().contains(k));
            }
            if ll.dom().contains(k) {
                let a = choose|a: int| 0 <= a < blocks.entries@.len() && #[trigger] blocks.entries@[a].0 == k;
                blocks.lemma_entry(a);
            }
        }
        assert forall|k: u16| #[trigger] block_liveness.map().dom().contains(k) implies block_liveness.map()[k].2 == 0
            && block_liveness.map()[k].3 == 0 by {
            assert(ll.dom().contains(k));
        }
        assert(block_liveness.map().dom() =~= blocks.map().dom());
        let bl = block_liveness.map();
        let g = blocks.map();
        assert forall|k: u16| #[trigger] g.dom().contains(k) implies bits_le(bl[k].3, out_of(bl, g[k].succs@))
            && bits_le(bl[k].2, in_of(bl[k].0, bl[k].1, out_of(bl, g[k].succs@))) by {
            assert(bl.dom().contains(k));
            lemma_bits_facts(out_of(bl, g[k].succs@), 0, 0, 0, 0, 0);
            lemma_bits_facts(in_of(bl[k].0, bl[k].1, out_of(bl, g[k].succs@)), 0, 0, 0, 0, 0);
        }
    }
    (instr_liveness, block_liveness)
}

/// The block facts of the local pass are keyed by the blocks and start with
/// empty live sets.
proof fn lemma_local_blocks(dis: Map<u16, Line>, s: Seq<(u16, BasicBlock)>)
    ensures
        forall|k: u16| #[trigger] local_liveness(dis, s).1.dom().contains(k) <==> exists|a: int| 0 <= a < s.len() && #[trigger] s[a].0 == k,
        forall|k: u16| #[trigger] local_liveness(dis, s).1.dom().contains(k) ==> local_liveness(dis, s).1[k].2 == 0
            && local_liveness(dis, s).1[k].3 == 0,
    decreases s.len(),
{
    if s.len() > 0 {
        let d = s.drop_last();
        lemma_local_blocks(dis, d);
        let (il, bl) = local_liveness(dis, d);
        let (k0, b0) = s.last();
        let (m, u, dd) = local_pass(dis, il, k0, b0.length as int);
        let bs = local_liveness(dis, s).1;
        assert(bs == bl.insert(k0, (u, dd, 0u8, 0u8)));
        assert forall|k: u16| #[trigger] bs.dom().contains(k) implies bs[k].2 == 0 && bs[k].3 == 0 by {
            if k != k0 {
                assert(bl.dom().contains(k));
            }
        }
        assert forall|k: u16| #[trigger] bs.dom().contains(k) <==> exists|a: int| 0 <= a < s.len() && #[trigger] s[a].0 == k by {
            if exists|a: int| 0 <= a < s.len() && #[trigger] s[a].0 == k {
                let a = choose|a: int| 0 <= a < s.len() && #[trigger] s[a].0 == k;
                if a < s.len() - 1 {
                    assert(d[a].0 == k);
                }
            }
            if bl.dom().contains(k) {
                let a = choose|a: int| 0 <= a < d.len() && #[trigger] d[a].0 == k;
                assert(s[a].0 == k);
            }
            assert(s[s.len() - 1] == s.last());
        }
    }
}

/// The union of the live-in sets of the successors (those that have liveness
/// facts).
pub open spec fn out_of(bl: Map<u16, (u8, u8, u8, u8)>, succs: Seq<u16>) -> u8
    decreases succs.len(),
{
    if succs.len() == 0 {
        0u8
    } else {
        let rest = out_of(bl, succs.drop_last());
        if bl.dom().contains(succs.last()) {
            rest | bl[succs.last()].2
        } else {
            rest
        }
    }
}

/// The live-in set that the dataflow equation gives a block with uses `u`,
/// definitions `d` and live-out set `out`.
pub open spec fn in_of(u: u8, d: u8, out: u8) -> u8 {
    u | (out & !d)
}

/// `a` has no bit that `b` lacks.
pub open spec fn bits_le(a: u8, b: u8) -> bool {
    a & !b == 0
}

proof fn lemma_bits_facts(a: u8, b: u8, c: u8, d: u8, u: u8, e: u8)
    ensures
        bits_le(a, b) && bits_le(c, d) ==> bits_le(a | c, b | d),
        bits_le(a, b) ==> bits_le(u | (a & !e), u | (b & !e)),
        bits_le(a, b) ==> a <= b,
        bits_le(a, a),
        bits_le(a, b) && bits_le(b, c) ==> bits_le(a, c),
        bits_le(0, a),
{
    assert(bits_le(a, b) && bits_le(c, d) ==> bits_le(a | c, b | d)) by (bit_vector);
    assert(bits_le(a, b) ==> bits_le(u | (a & !e), u | (b & !e))) by (bit_vector);
    assert(bits_le(a, b) ==> a <= b) by (bit_vector);
    assert(bits_le(a, a)) by (bit_vector);
    assert(bits_le(a, b) && bits_le(b, c) ==> bits_le(a, c)) by (bit_vector);
    assert(bits_le(0, a)) by (bit_vector);
}

/// Growing the live-in sets grows every union of them.
proof fn lemma_out_monotone(bl: Map<u16, (u8, u8, u8, u8)>, bl2: Map<u16, (u8, u8, u8, u8)>, succs: Seq<u16>)
    requires
        bl2.dom() == bl.dom(),
        forall|k: u16| #[trigger] bl.dom().contains(k) ==> bits_le(bl[k].2, bl2[k].2),
    ensures
        bits_le(out_of(bl, succs), out_of(bl2, succs)),
    decreases succs.len(),
{
    if succs.len() == 0 {
        lemma_bits_facts(0, 0, 0, 0, 0, 0);
    } else {
        lemma_out_monotone(bl, bl2, succs.drop_last());
        let l = succs.last();
        if bl.dom().contains(l) {
            lemma_bits_facts(out_of(bl, succs.drop_last()), out_of(bl2, succs.drop_last()), bl[l].2, bl2[l].2, 0, 0);
        }
    }
}

/// Block liveness solves the dataflow equations: each block's live-out set is
/// the union of its successors' live-in sets, and its live-in set is its uses
/// together with what is live out and not defined in it.
pub open spec fn liveness_solved(g: Map<u16, BasicBlock>, bl: Map<u16, (u8, u8, u8, u8)>) -> bool {
    forall|k: u16|
        #[trigger] g.dom().contains(k) ==> bl[k].3 == out_of(bl, g[k].succs@) && bl[k].2 == in_of(
            bl[k].0,
            bl[k].1,
            bl[k].3,
        )
}

/// Every block's current sets lie below what the equations give it.
pub open spec fn below_equations(g: Map<u16, BasicBlock>, bl: Map<u16, (u8, u8, u8, u8)>) -> bool {
    forall|k: u16|
        #[trigger] g.dom().contains(k) ==> bits_le(bl[k].3, out_of(bl, g[k].succs@)) && bits_le(
            bl[k].2,
            in_of(bl[k].0, bl[k].1, out_of(bl, g[k].succs@)),
        )
}

/// The sum of the live-in and live-out masks of an entry sequence.
pub open spec fn live_total(s: Seq<(u16, (u8, u8, u8, u8))>) -> nat
    decreases s.len(),
{
    if s.len() == 0 {
        0
    } else {
        live_total(s.drop_last()) + s.last().1.2 as nat + s.last().1.3 as nat
    }
}

proof fn lemma_live_total_update(s: Seq<(u16, (u8, u8, u8, u8))>, i: int, e: (u16, (u8, u8, u8, u8)))
    requires
        0 <= i < s.len(),
    ensures
        live_total(s.update(i, e)) + s[i].1.2 + s[i].1.3 == live_total(s) + e.1.2 + e.1.3,
        live_total(s) <= 510 * s.len(),
    decreases s.len(),
{
    let t = s.update(i, e);
    if i == s.len() - 1 {
        assert(t.drop_last() =~= s.drop_last());
        lemma_live_total_bound(s.drop_last());
    } else {
        assert(t.drop_last() =~= s.drop_last().update(i, e));
        lemma_live_total_update(s.drop_last(), i, e);
    }
}

proof fn lemma_live_total_bound(s: Seq<(u16, (u8, u8, u8, u8))>)
    ensures
        live_total(s) <= 510 * s.len(),
    decreases s.len(),
{
    if s.len() > 0 {
        lemma_live_total_bound(s.drop_last());
    }
}

/// Computes the live-out set of a block: the union of the live-in sets of its
/// successors.
fn block_out(succs: &Vec<u16>, block_liveness: &AddrMap<(u8, u8, u8, u8)>) -> (out: u8)
    requires
        block_liveness.wf(),
    ensures
        out == out_of(block_liveness.map(), succs@),
{
    let mut out_b: u8 = 0;
    let mut j: usize = 0;
    while j < succs.len()
        invariant
            block_liveness.wf(),
            j <= succs@.len(),
            out_b == out_of(block_liveness.map(), succs@.subrange(0, j as int)),
        decreases succs@.len() - j,
    {
        proof {
            assert(succs@.subrange(0, j + 1).drop_last() =~= succs@.subrange(0, j as int));
        }
        match block_liveness.get(succs[j]) {
            Some(e) => {
                out_b = out_b | e.2;
            },
            None => {},
        }
        j = j + 1;
    }
    assert(succs@.subrange(0, j as int) =~= succs@);
    out_b
}

/// Every live-in and live-out set of `bl` lies within that of `sol`.
pub open spec fn live_below(bl: Map<u16, (u8, u8, u8, u8)>, sol: Map<u16, (u8, u8, u8, u8)>) -> bool {
    forall|k: u16| #[trigger] bl.dom().contains(k) ==> bits_le(bl[k].2, sol[k].2) && bits_le(bl[k].3, sol[k].3)
}

/// `sol` solves the dataflow equations of `g` with the uses and definitions
/// of `bl`, and its sets hold those of `bl`.
pub open spec fn live_bound(g: Map<u16, BasicBlock>, bl: Map<u16, (u8, u8, u8, u8)>, sol: Map<u16, (u8, u8, u8, u8)>) -> bool {
    &&& sol.dom() == bl.dom()
    &&& forall|k: u16| #[trigger] bl.dom().contains(k) ==> sol[k].0 == bl[k].0 && sol[k].1 == bl[k].1
    &&& liveness_solved(g, sol)
    &&& live_below(bl, sol)
}

/// Propagates liveness between blocks until the dataflow equations hold:
/// live-out is the union of the successors' live-in, live-in is uses together
/// with live-out minus definitions. The result is the least such solution
/// above the sets it starts from.
#[verifier::rlimit(50)]
pub fn propagate_global_liveness(blocks: &AddrMap<BasicBlock>, block_liveness: &mut AddrMap<(u8, u8, u8, u8)>)
    requires
        blocks.wf(),
        old(block_liveness).wf(),
        forall|k: u16| #[trigger] blocks.map().dom().contains(k) ==> old(block_liveness).map().dom().contains(k),
        below_equations(blocks.map(), old(block_liveness).map()),
    ensures
        final(block_liveness).wf(),
        final(block_liveness).map().dom() == old(block_liveness).map().dom(),
        forall|k: u16| #[trigger] old(block_liveness).map().dom().contains(k) ==> final(block_liveness).map()[k].0
            == old(block_liveness).map()[k].0 && final(block_liveness).map()[k].1 == old(block_liveness).map()[k].1,
        liveness_solved(blocks.map(), final(block_liveness).map()),
        forall|sol: Map<u16, (u8, u8, u8, u8)>| #[trigger] live_bound(blocks.map(), old(block_liveness).map(), sol)
            ==> live_below(final(block_liveness).map(), sol),
{
    let ghost g = blocks.map();
    let ghost bl_in = block_liveness.map();
    let ghost n = block_liveness.entries@.len();
    let keys = blocks.keys();
    let mut changed = true;
    proof {
        lemma_live_total_bound(block_liveness.entries@);
        assert forall|sol: Map<u16, (u8, u8, u8, u8)>| #[trigger] live_bound(g, bl_in, sol) implies live_below(block_liveness.map(), sol) by {}
    }
    while changed
        invariant
            blocks.wf(),
            g == blocks.map(),
            keys@ == blocks.key_seq(),
            block_liveness.wf(),
            block_liveness.entries@.len() == n,
            block_liveness.map().dom() == bl_in.dom(),
            forall|k: u16| #[trigger] bl_in.dom().contains(k) ==> block_liveness.map()[k].0 == bl_in[k].0
                && block_liveness.map()[k].1 == bl_in[k].1,
            forall|k: u16| #[trigger] g.dom().contains(k) ==> bl_in.dom().contains(k),
            below_equations(g, block_liveness.map()),
            live_total(block_liveness.entries@) <= 510 * n,
            !changed ==> liveness_solved(g, block_liveness.map()),
            forall|sol: Map<u16, (u8, u8, u8, u8)>| #[trigger] live_bound(g, bl_in, sol) ==> live_below(block_liveness.map(), sol),
        decreases 510 * n - live_total(block_liveness.entries@) + if changed { 1int } else { 0int },
    {
        let ghost start_total = live_total(block_liveness.entries@);
        let ghost bl_start = block_liveness.map();
        changed = false;
        let mut i: usize = 0;
        while i < keys.len()
            invariant
                blocks.wf(),
                g == blocks.map(),
                keys@ == blocks.key_seq(),
                block_liveness.wf(),
                block_liveness.entries@.len() == n,
                block_liveness.map().dom() == bl_in.dom(),
                forall|k: u16| #[trigger] bl_in.dom().contains(k) ==> block_liveness.map()[k].0 == bl_in[k].0
                    && block_liveness.map()[k].1 == bl_in[k].1,
                forall|k: u16| #[trigger] g.dom().contains(k) ==> bl_in.dom().contains(k),
                below_equations(g, block_liveness.map()),
                live_total(block_liveness.entries@) <= 510 * n,
                forall|sol: Map<u16, (u8, u8, u8, u8)>| #[trigger] live_bound(g, bl_in, sol) ==> live_below(block_liveness.map(), sol),
                i <= keys@.len(),
                changed ==> live_total(block_liveness.entries@) > start_total,
                !changed ==> block_liveness.map() == bl_start && live_total(block_liveness.entries@) == start_total,
                !changed ==> forall|a: int| 0 <= a < i ==> {
                    let k = #[trigger] keys@[a];
                    &&& block_liveness.map()[k].3 == out_of(block_liveness.map(), g[k].succs@)
                    &&& block_liveness.map()[k].2 == in_of(block_liveness.map()[k].0, block_liveness.map()[k].1, block_liveness.map()[k].3)
                },
            decreases keys@.len() - i,
        {
            let block_addr = keys[i];
            proof {
                blocks.lemma_entry(i as int);
            }
            let ghost bl0 = block_liveness.map();
            let succs = match blocks.get(block_addr) {
                Some(b) => crate::cfg::copy_addrs(&b.succs),
                None => Vec::new(),
            };
            let pos = match block_liveness.find(block_addr) {
                Some(p) => p,
                None => 0,
            };
            proof {
                block_liveness.lemma_entry(pos as int);
            }
            let (use_b, def_b, old_in, old_out) = block_liveness.entries[pos].1;
            let out_b = block_out(&succs, block_liveness);
            let in_b = use_b | (out_b & !def_b);
            if old_in != in_b || old_out != out_b {
                proof {
                    lemma_bits_facts(old_out, out_b, old_in, in_b, 0, 0);
                    lemma_bits_facts(old_in, in_b, 0, 0, 0, 0);
                    assert(old_in != in_b ==> old_in < in_b);
                    assert(old_out != out_b ==> old_out < out_b);
                    lemma_live_total_update(block_liveness.entries@, pos as int, (block_addr, (use_b, def_b, in_b, out_b)));
                }
                block_liveness.set_value(pos, (use_b, def_b, in_b, out_b));
                changed = true;
                proof {
                    let bl1 = block_liveness.map();
                    lemma_live_total_bound(block_liveness.entries@);
                    assert(bl1 == bl0.insert(block_addr, (use_b, def_b, in_b, out_b)));
                    assert forall|k: u16| #[trigger] bl0.dom().contains(k) implies bits_le(bl0[k].2, bl1[k].2) by {
                        if k == block_addr {
                        } else {
                            lemma_bits_facts(bl0[k].2, bl0[k].2, 0, 0, 0, 0);
                        }
                    }
                    assert(bl1.dom() =~= bl0.dom());
                    assert forall|k: u16| #[trigger] g.dom().contains(k) implies bits_le(bl1[k].3, out_of(bl1, g[k].succs@))
                        && bits_le(bl1[k].2, in_of(bl1[k].0, bl1[k].1, out_of(bl1, g[k].succs@))) by {
                        lemma_out_monotone(bl0, bl1, g[k].succs@);
                        let o0 = out_of(bl0, g[k].succs@);
                        let o1 = out_of(bl1, g[k].succs@);
                        lemma_bits_facts(bl0[k].3, o0, 0, 0, 0, 0);
                        lemma_bits_facts(o0, o1, 0, 0, bl0[k].0, bl0[k].1);
                        lemma_bits_facts(bl0[k].3, o0, o1, 0, 0, 0);
                        lemma_bits_facts(bl0[k].2, in_of(bl0[k].0, bl0[k].1, o0), in_of(bl0[k].0, bl0[k].1, o1), 0, 0, 0);
                        if k == block_addr {
                            lemma_bits_facts(in_b, in_b, 0, 0, 0, 0);
                            lemma_bits_facts(out_b, o1, 0, 0, use_b, def_b);
                        }
                    }
                    assert forall|sol: Map<u16, (u8, u8, u8, u8)>| #[trigger] live_bound(g, bl_in, sol) implies live_below(bl1, sol) by {
                        assert(live_below(bl0, sol));
                        lemma_out_monotone(bl0, sol, succs@);
                        assert(g.dom().contains(block_addr));
                        assert(sol[block_addr].3 == out_of(sol, g[block_addr].succs@));
                        assert(sol[block_addr].0 == use_b && sol[block_addr].1 == def_b);
                        lemma_bits_facts(out_b, sol[block_addr].3, 0, 0, use_b, def_b);
                        assert forall|k: u16| #[trigger] bl1.dom().contains(k) implies bits_le(bl1[k].2, sol[k].2) && bits_le(bl1[k].3, sol[k].3) by {
                            assert(bl0.dom().contains(k));
                        }
                    }
                }
            } else {
                proof {
                    assert(bl0[block_addr] == (use_b, def_b, old_in, old_out));
                }
            }
            i = i + 1;
        }
        proof {
            if !changed {
                assert forall|k: u16| #[trigger] g.dom().contains(k) implies block_liveness.map()[k].3
                    == out_of(block_liveness.map(), g[k].succs@) && block_liveness.map()[k].2 == in_of(
                    block_liveness.map()[k].0,
                    block_liveness.map()[k].1,
                    block_liveness.map()[k].3,
                ) by {
                    let a = blocks.lemma_key(k);
                    assert(keys@[a] == k);
                }
            }
        }
    }
}

/// The backward pass over the last `i` words (from word `i - 1` down to word
/// 0) of the block at `start`, entered with live set `cur`: each instruction
/// with facts gets `live_out = cur` and `live_in = uses | (live_out & !defs)`,
/// and its live-in set becomes the live set before it.
pub open spec fn back_pass(il: Map<u16, LivenessInfo>, start: u16, i: int, cur: u8) -> Map<u16, LivenessInfo>
    decreases i,
{
    if i <= 0 {
        il
    } else {
        let a = addr_plus(start, i - 1);
        if il.dom().contains(a) {
            let info = il[a];
            let live_in = info.uses | (cur & !info.defs);
            back_pass(il.insert(a, LivenessInfo { live_out: cur, live_in, ..info }), start, i - 1, live_in)
        } else {
            back_pass(il, start, i - 1, cur)
        }
    }
}

/// The instruction facts after the backward pass over each block of an entry
/// sequence, in order, each entered with the block's live-out set.
pub open spec fn final_liveness(
    il: Map<u16, LivenessInfo>,
    s: Seq<(u16, BasicBlock)>,
    bl: Map<u16, (u8, u8, u8, u8)>,
) -> Map<u16, LivenessInfo>
    decreases s.len(),
{
    if s.len() == 0 {
        il
    } else {
        let (k, b) = s.last();
        back_pass(final_liveness(il, s.drop_last(), bl), k, b.length as int, bl[k].3)
    }
}

/// Computes the live-in and live-out sets of each instruction by walking each
/// block backwards from its live-out set.
pub fn compute_final_liveness(
    blocks: &AddrMap<BasicBlock>,
    block_liveness: &AddrMap<(u8, u8, u8, u8)>,
    instr_liveness: &mut AddrMap<LivenessInfo>,
)
    requires
        blocks.wf(),
        block_liveness.wf(),
        old(instr_liveness).wf(),
        forall|k: u16| #[trigger] blocks.map().dom().contains(k) ==> block_liveness.map().dom().contains(k),
    ensures
        final(instr_liveness).wf(),
        final(instr_liveness).map() == final_liveness(old(instr_liveness).map(), blocks.entries@, block_liveness.map()),
{
    let ghost il_in = instr_liveness.map();
    let mut b: usize = 0;
    while b < blocks.len()
        invariant
            blocks.wf(),
            block_liveness.wf(),
            instr_liveness.wf(),
            forall|k: u16| #[trigger] blocks.map().dom().contains(k) ==> block_liveness.map().dom().contains(k),
            b <= blocks.entries@.len(),
            instr_liveness.map() == final_liveness(il_in, blocks.entries@.subrange(0, b as int), block_liveness.map()),
        decreases blocks.entries@.len() - b,
    {
        let block_addr = blocks.entries[b].0;
        let length = blocks.entries[b].1.length;
        proof {
            blocks.lemma_entry(b as int);
        }
        let out_b = match block_liveness.get(block_addr) {
            Some(e) => e.3,
            None => 0,
        };
        let ghost il0 = instr_liveness.map();
        let mut current_live = out_b;
        let mut i: u16 = length;
        while i > 0
            invariant
                instr_liveness.wf(),
                i <= length,
                back_pass(il0, block_addr, length as int, out_b) == back_pass(instr_liveness.map(), block_addr, i as int, current_live),
            decreases i,
        {
            let addr = block_addr.wrapping_add(i - 1);
            assert(addr == addr_plus(block_addr, i - 1));
            match instr_liveness.find(addr) {
                Some(pos) => {
                    proof {
                        instr_liveness.lemma_entry(pos as int);
                    }
                    let info = instr_liveness.entries[pos].1;
                    let live_in = info.uses | (current_live & !info.defs);
                    instr_liveness.set_value(pos, LivenessInfo { live_out: current_live, live_in, ..info });
                    current_live = live_in;
                },
                None => {},
            }
            i = i - 1;
        }
        proof {
            let s = blocks.entries@.subrange(0, b + 1);
            assert(s.drop_last() =~= blocks.entries@.subrange(0, b as int));
            assert(s.last() == blocks.entries@[b as int]);
        }
        b = b + 1;
    }
    proof {
        assert(blocks.entries@.subrange(0, b as int) =~= blocks.entries@);
    }
}

/// Whether the LC-3 instruction reads register `r`: the first source of
/// `ADD` and `AND` (but for `AND` with 0, whose result does not depend on it)
/// and a register second operand, the source of `NOT`, the base register of
/// `LDR`, `STR`, `JMP` and `JSRR`, the register that `ST`, `STI` and `STR`
/// store, R7 (the return address) for `RET`, and R0 for a numbered trap.
pub open spec fn reads_reg(i: Instr, r: u8) -> bool {
    match i {
        Instr::Add(_, s, o) => r == s || o == Operand::Reg(r),
        Instr::And(_, s, o) => (r == s && o != Operand::Imm(0)) || o == Operand::Reg(r),
        Instr::Not(_, s) => r == s,
        Instr::Ldr(_, b, _) => r == b,
        Instr::St(s, _) => r == s,
        Instr::Sti(s, _) => r == s,
        Instr::Str(s, b, _) => r == s || r == b,
        Instr::Jmp(b) => r == b,
        Instr::Jsrr(b) => r == b,
        Instr::Ret => r == 7,
        Instr::Trap(_) => r == 0,
        _ => false,
    }
}

/// Whether the LC-3 instruction writes register `r`: the destination of
/// `ADD`, `AND`, `NOT`, `LD`, `LDI`, `LDR` and `LEA`, R7 (the return address)
/// for calls, and R7 and R0 for a numbered trap.
pub open spec fn writes_reg(i: Instr, r: u8) -> bool {
    match i {
        Instr::Add(d, _, _) => r == d,
        Instr::And(d, _, _) => r == d,
        Instr::Not(d, _) => r == d,
        Instr::Ld(d, _) => r == d,
        Instr::Ldi(d, _) => r == d,
        Instr::Ldr(d, _, _) => r == d,
        Instr::Lea(d, _) => r == d,
        Instr::Jsr(_) => r == 7,
        Instr::Jsrr(_) => r == 7,
        Instr::Trap(_) => r == 7 || r == 0,
        _ => false,
    }
}

proof fn lemma_bits(a: u8, b: u8, c: u8)
    requires
        a < 8,
        b < 8,
        c < 8,
    ensures
        reg_bit(a) & reg_bit(a) != 0,
        reg_bit(b) & reg_bit(b) != 0,
        (reg_bit(a) | reg_bit(b)) & reg_bit(a) != 0,
        (reg_bit(a) | reg_bit(b)) & reg_bit(b) != 0,
{
    assert(a < 8 ==> ((1u8 << a) as u8) & ((1u8 << a) as u8) != 0) by (bit_vector);
    assert(b < 8 ==> ((1u8 << b) as u8) & ((1u8 << b) as u8) != 0) by (bit_vector);
    assert(a < 8 && b < 8 ==> (((1u8 << a) as u8) | ((1u8 << b) as u8)) & ((1u8 << a) as u8) != 0) by (bit_vector);
    assert(a < 8 && b < 8 ==> (((1u8 << a) as u8) | ((1u8 << b) as u8)) & ((1u8 << b) as u8) != 0) by (bit_vector);
}

proof fn lemma_bits_only(a: u8, b: u8, r: u8)
    requires
        a < 8,
        b < 8,
        r < 8,
    ensures
        reg_bit(a) & reg_bit(r) != 0 ==> a == r,
        (reg_bit(a) | reg_bit(b)) & reg_bit(r) != 0 ==> a == r || b == r,
        0u8 & reg_bit(r) == 0,
{
    assert(a < 8 && r < 8 && ((1u8 << a) as u8) & ((1u8 << r) as u8) != 0 ==> a == r) by (bit_vector);
    assert(a < 8 && b < 8 && r < 8 && (((1u8 << a) as u8) | ((1u8 << b) as u8)) & ((1u8 << r) as u8) != 0 ==> a == r || b == r)
        by (bit_vector);
    assert(0u8 & ((1u8 << r) as u8) == 0) by (bit_vector);
}

/// The use and definition masks hold no other register than those that the
/// instruction reads and writes.
pub proof fn law_use_def_exact(i: Instr, r: u8)
    requires
        instr_regs_ok(i),
        r < 8,
    ensures
        use_def(i).0 & reg_bit(r) != 0 <==> reads_reg(i, r),
        use_def(i).1 & reg_bit(r) != 0 <==> writes_reg(i, r),
{
    law_use_def_covers(i, r);
    match i {
        Instr::Add(d, s, o) => {
            lemma_bits_only(d, d, r);
            match o {
                Operand::Reg(x) => lemma_bits_only(s, x, r),
                Operand::Imm(_) => lemma_bits_only(s, s, r),
            }
        },
        Instr::And(d, s, o) => {
            lemma_bits_only(d, d, r);
            match o {
                Operand::Reg(x) => lemma_bits_only(s, x, r),
                Operand::Imm(_) => lemma_bits_only(s, s, r),
            }
        },
        Instr::Not(d, s) => {
            lemma_bits_only(d, d, r);
            lemma_bits_only(s, s, r);
        },
        Instr::Ld(d, _) => lemma_bits_only(d, d, r),
        Instr::Ldi(d, _) => lemma_bits_only(d, d, r),
        Instr::Lea(d, _) => lemma_bits_only(d, d, r),
        Instr::Ldr(d, b, _) => {
            lemma_bits_only(d, d, r);
            lemma_bits_only(b, b, r);
        },
        Instr::St(s, _) => lemma_bits_only(s, s, r),
        Instr::Sti(s, _) => lemma_bits_only(s, s, r),
        Instr::Str(s, b, _) => lemma_bits_only(s, b, r),
        Instr::Jmp(b) => lemma_bits_only(b, b, r),
        Instr::Jsr(_) => lemma_bits_only(7, 7, r),
        Instr::Jsrr(b) => {
            lemma_bits_only(b, b, r);
            lemma_bits_only(7, 7, r);
        },
        Instr::Ret => lemma_bits_only(7, 7, r),
        Instr::Trap(_) => {
            lemma_bits_only(0, 0, r);
            lemma_bits_only(7, 0, r);
        },
        _ => lemma_bits_only(0, 0, r),
    }
}

/// The use and definition masks hold every register that the instruction
/// reads and every register that it writes, so a register that an
/// instruction reads is never reported dead before it.
pub proof fn law_use_def_covers(i: Instr, r: u8)
    requires
        instr_regs_ok(i),
        r < 8,
    ensures
        reads_reg(i, r) ==> use_def(i).0 & reg_bit(r) != 0,
        writes_reg(i, r) ==> use_def(i).1 & reg_bit(r) != 0,
{
    match i {
        Instr::Add(d, s, o) => {
            lemma_bits(d, d, d);
            lemma_bits(s, s, s);
            if let Operand::Reg(x) = o {
                lemma_bits(s, x, x);
            }
        },
        Instr::And(d, s, o) => {
            lemma_bits(d, d, d);
            lemma_bits(s, s, s);
            if let Operand::Reg(x) = o {
                lemma_bits(s, x, x);
            }
        },
        Instr::Not(d, s) => lemma_bits(d, s, s),
        Instr::Ld(d, _) => lemma_bits(d, d, d),
        Instr::Ldi(d, _) => lemma_bits(d, d, d),
        Instr::Lea(d, _) => lemma_bits(d, d, d),
        Instr::Ldr(d, b, _) => lemma_bits(d, b, b),
        Instr::St(s, _) => lemma_bits(s, s, s),
        Instr::Sti(s, _) => lemma_bits(s, s, s),
        Instr::Str(s, b, _) => lemma_bits(s, b, b),
        Instr::Jmp(b) => lemma_bits(b, b, b),
        Instr::Jsr(_) => lemma_bits(7, 7, 7),
        Instr::Jsrr(b) => lemma_bits(b, 7, 7),
        Instr::Ret => lemma_bits(7, 7, 7),
        Instr::Trap(_) => lemma_bits(7, 0, 0),
        _ => {},
    }
}

} // verus!
