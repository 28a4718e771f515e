use vstd::prelude::*;
use crate::addr_map::AddrMap;
use crate::cfg::BasicBlock;
use crate::ir::{
    IRStmt, IRStmtKind, SKind, SStmt, blocks_regs_ok, blocks_view, lemma_blocks_view, lemma_stmts_regs_ok,
    lemma_stmts_view, stmt_regs_ok, stmts_regs_ok, stmts_view,
};
use crate::lc3::{Line, Nucleus};
use crate::lift::block_covered;
use crate::liveness::{LivenessInfo, addr_plus};
use crate::passes::assign_regs_ok;

verus! {

/// Whether every instruction of every block has liveness facts.
pub fn liveness_covers(
    blocks: &AddrMap<BasicBlock>,
    disassembly: &AddrMap<Line>,
    instr_liveness: &AddrMap<LivenessInfo>,
) -> (b: bool)
    requires
        disassembly.wf(),
        instr_liveness.wf(),
    ensures
        b == forall|k: int|
            0 <= k < blocks.entries@.len() ==> block_covered(
                disassembly.map(),
                instr_liveness.map(),
                #[trigger] blocks.entries@[k].0,
                blocks.entries@[k].1.length as int,
            ),
{
    let ghost dis = disassembly.map();
    let ghost live = instr_liveness.map();
    let mut k: usize = 0;
    while k < blocks.entries.len()
        invariant
            k <= blocks.entries@.len(),
            disassembly.wf(),
            instr_liveness.wf(),
            dis == disassembly.map(),
            live == instr_liveness.map(),
            forall|j: int|
                0 <= j < k ==> block_covered(dis, live, #[trigger] blocks.entries@[j].0, blocks.entries@[j].1.length as int),
        decreases blocks.entries@.len() - k,
    {
        let start = blocks.entries[k].0;
        let length = blocks.entries[k].1.length;
        let mut i: u16 = 0;
        while i < length
            invariant
                i <= length,
                k < blocks.entries@.len(),
                start == blocks.entries@[k as int].0,
                length == blocks.entries@[k as int].1.length,
                disassembly.wf(),
                instr_liveness.wf(),
                dis == disassembly.map(),
                live == instr_liveness.map(),
                forall|q: int|
                    0 <= q < i && dis.dom().contains(#[trigger] addr_plus(start, q)) && dis[addr_plus(start, q)].nucleus is Instr
                        ==> live.dom().contains(addr_plus(start, q)),
            decreases length - i,
        {
            let a = start.wrapping_add(i);
            assert(a == addr_plus(start, i as int));
            match disassembly.get(a) {
                Some(line) => {
                    match line.nucleus {
                        Nucleus::Instr(_) => {
                            if !instr_liveness.contains_key(a) {
                                proof {
                                    assert(dis.dom().contains(addr_plus(start, i as int)));
                                    assert(!block_covered(dis, live, start, length as int));
                                }
                                return false;
                            }
                        },
                        Nucleus::Directive => {},
                    }
                },
                None => {},
            }
            i = i + 1;
        }
        k = k + 1;
    }
    true
}

/// Whether every top-level assignment of every block writes a register
/// below 8.
pub fn assign_regs_in_range(blocks: &AddrMap<Vec<IRStmt>>) -> (b: bool)
    ensures
        b == forall|k: int| 0 <= k < blocks.entries@.len() ==> assign_regs_ok(#[trigger] blocks_view(blocks.entries@)[k].1),
{
    let ghost bv = blocks_view(blocks.entries@);
    proof {
        lemma_blocks_view(blocks.entries@);
    }
    let mut k: usize = 0;
    while k < blocks.entries.len()
        invariant
            k <= blocks.entries@.len(),
            bv == blocks_view(blocks.entries@),
            bv.len() == blocks.entries@.len(),
            forall|q: int| 0 <= q < blocks.entries@.len() ==> #[trigger] bv[q] == (blocks.entries@[q].0, stmts_view(
                blocks.entries@[q].1@,
            )),
            forall|j: int| 0 <= j < k ==> assign_regs_ok(#[trigger] bv[j].1),
        decreases blocks.entries@.len() - k,
    {
        let stmts = &blocks.entries[k].1;
        proof {
            lemma_stmts_view(stmts@);
        }
        let mut i: usize = 0;
        while i < stmts.len()
            invariant
                i <= stmts@.len(),
                k < blocks.entries@.len(),
                stmts@ == blocks.entries@[k as int].1@,
                bv == blocks_view(blocks.entries@),
                bv.len() == blocks.entries@.len(),
                forall|q: int| 0 <= q < blocks.entries@.len() ==> #[trigger] bv[q] == (blocks.entries@[q].0, stmts_view(
                    blocks.entries@[q].1@,
                )),
                stmts_view(stmts@).len() == stmts@.len(),
                forall|q: int| 0 <= q < stmts@.len() ==> #[trigger] stmts_view(stmts@)[q] == stmts@[q]@,
                forall|q: int| 0 <= q < i ==> (#[trigger] stmts_view(stmts@)[q].kind matches SKind::Assign(r, _) ==> r < 8),
            decreases stmts@.len() - i,
        {
            match &stmts[i].kind {
                IRStmtKind::Assign(r, _) => {
                    if *r >= 8 {
                        proof {
                            assert(stmts_view(stmts@)[i as int].kind matches SKind::Assign(x, _) && x >= 8);
                            assert(bv[k as int].1 == stmts_view(stmts@));
                        }
                        return false;
                    }
                },
                _ => {},
            }
            i = i + 1;
        }
        proof {
            assert(bv[k as int].1 == stmts_view(stmts@));
        }
        k = k + 1;
    }
    true
}

/// Whether every assignment at any depth writes a register below 8 (see
/// `stmt_regs_ok`).
pub fn regs_in_range(blocks: &AddrMap<Vec<IRStmt>>) -> (b: bool)
    ensures
        b == blocks_regs_ok(blocks_view(blocks.entries@)),
    decreases blocks, 0int,
{
    let ghost bv = blocks_view(blocks.entries@);
    proof {
        lemma_blocks_view(blocks.entries@);
    }
    let mut k: usize = 0;
    while k < blocks.entries.len()
        invariant
            k <= blocks.entries@.len(),
            bv == blocks_view(blocks.entries@),
            bv.len() == blocks.entries@.len(),
            forall|q: int| 0 <= q < blocks.entries@.len() ==> #[trigger] bv[q] == (blocks.entries@[q].0, stmts_view(
                blocks.entries@[q].1@,
            )),
            blocks_regs_ok(bv.subrange(0, k as int)),
        decreases blocks.entries@.len() - k,
    {
        proof {
            assert(decreases_to!(blocks => blocks.entries));
            assert(decreases_to!(blocks.entries => blocks.entries[k as int]));
            assert(decreases_to!(blocks.entries[k as int] => blocks.entries[k as int].1));
            let t = bv.subrange(0, k + 1);
            assert(t.drop_last() =~= bv.subrange(0, k as int));
            assert(t.last() == bv[k as int]);
        }
        if !stmts_regs_in_range(&blocks.entries[k].1) {
            proof {
                lemma_blocks_prefix(bv, k + 1);
            }
            return false;
        }
        k = k + 1;
    }
    proof {
        assert(bv.subrange(0, k as int) =~= bv);
    }
    true
}

/// A prefix of blocks fails the register check where the whole does.
proof fn lemma_blocks_prefix(b: Seq<(u16, Seq<SStmt>)>, n: int)
    requires
        0 <= n <= b.len(),
        !blocks_regs_ok(b.subrange(0, n)),
    ensures
        !blocks_regs_ok(b),
    decreases b.len(),
{
    if n < b.len() {
        assert(b.drop_last().subrange(0, n) =~= b.subrange(0, n));
        lemma_blocks_prefix(b.drop_last(), n);
    } else {
        assert(b.subrange(0, n) =~= b);
    }
}

/// Computes `stmts_regs_ok` of a vector of statements.
fn stmts_regs_in_range(v: &Vec<IRStmt>) -> (b: bool)
    ensures
        b == stmts_regs_ok(stmts_view(v@)),
    decreases v, 0int,
{
    let ghost sv = stmts_view(v@);
    proof {
        lemma_stmts_view(v@);
        lemma_stmts_regs_ok(sv);
    }
    let mut i: usize = 0;
    while i < v.len()
        invariant
            i <= v@.len(),
            sv == stmts_view(v@),
            sv.len() == v@.len(),
            forall|q: int| 0 <= q < v@.len() ==> #[trigger] sv[q] == v@[q]@,
            stmts_regs_ok(sv) <==> forall|q: int| 0 <= q < sv.len() ==> #[trigger] stmt_regs_ok(sv[q]),
            forall|q: int| 0 <= q < i ==> #[trigger] stmt_regs_ok(sv[q]),
        decreases v@.len() - i,
    {
        proof {
            assert(decreases_to!(v => v[i as int]));
        }
        if !stmt_regs_in_range(&v[i]) {
            proof {
                assert(!stmt_regs_ok(sv[i as int]));
            }
            return false;
        }
        i = i + 1;
    }
    true
}

/// Computes `stmt_regs_ok` of a statement.
fn stmt_regs_in_range(s: &IRStmt) -> (b: bool)
    ensures
        b == stmt_regs_ok(s@),
    decreases s, 1int,
{
    match &s.kind {
        IRStmtKind::Assign(r, _) => *r < 8,
        IRStmtKind::DoWhile(_, _, b) => regs_in_range(b),
        IRStmtKind::While(_, _, b) => regs_in_range(b),
        IRStmtKind::For(i, _, _, n, b) => stmt_regs_in_range(i) && stmt_regs_in_range(n) && regs_in_range(b),
        IRStmtKind::If(_, _, t, f) => {
            let a = stmts_regs_in_range(t);
            match f {
                Some(fs) => a && stmts_regs_in_range(fs),
                None => a,
            }
        },
        _ => true,
    }
}

} // verus!
