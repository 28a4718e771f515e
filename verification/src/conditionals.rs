use vstd::prelude::*;
use crate::addr_map::AddrMap;
use crate::cfg::{BasicBlock, NaturalLoop, has_addr};
use crate::control_flow::{Conditional, ConditionalType};
use crate::ir::{
    Expr, IRStmt, IRStmtKind, SExpr, SKind, SStmt, blocks_view, expr_view, opt_view, stmt_view, stmts_view,
    lemma_blocks_view, lemma_stmts_view, duplicate_opt, duplicate_stmts,
};
use crate::passes::{lemma_view_remove, lemma_view_update};
use crate::structure::{bfind, lemma_bfind};
use crate::refine::{find_block_any, put_block};

verus! {

/// The headers of the natural loops.
pub open spec fn headers_of(nl: Seq<NaturalLoop>) -> Seq<u16> {
    Seq::new(nl.len(), |i: int| nl[i].header)
}

/// The first successor from the `j`th on other than `t`.
pub open spec fn first_other(succs: Seq<u16>, t: u16, j: int) -> Option<u16>
    decreases succs.len() - j,
{
    if j < 0 || j >= succs.len() {
        None
    } else if succs[j] != t {
        Some(succs[j])
    } else {
        first_other(succs, t, j + 1)
    }
}

/// The merge at the `i`th block, if it applies: the block (not a loop
/// header) has two successors and ends with a conditional goto with an
/// expression to `ft`; its other successor `f` also has two successors, `ft`
/// among them, and its block is a single conditional goto with an expression
/// to `ft`. The first goto then tests the `||` of both conditions and `f`'s
/// block is dropped.
pub open spec fn merge_at(b: Seq<(u16, Seq<SStmt>)>, g: Map<u16, BasicBlock>, hs: Seq<u16>, i: int) -> Option<
    Seq<(u16, Seq<SStmt>)>,
> {
    let a = b[i].0;
    let ss = b[i].1;
    if hs.contains(a) || !g.dom().contains(a) || g[a].succs@.len() != 2 || ss.len() == 0 {
        None
    } else {
        match ss.last().kind {
            SKind::Goto(Some(c1), cc1, ft) => if cc1 == 7 {
                None
            } else {
                match first_other(g[a].succs@, ft, 0) {
                    None => None,
                    Some(f) => {
                        let fi = bfind(b, f, 0);
                        if !g.dom().contains(f) || g[f].succs@.len() != 2 || !g[f].succs@.contains(ft) || fi < 0 || b[fi].1.len()
                            == 0 {
                            None
                        } else {
                            match b[fi].1.last().kind {
                                SKind::Goto(Some(c2), cc2, t2) => if t2 == ft && cc2 != 7 && b[fi].1.len() == 1 {
                                    let comp = SExpr::LogicalOr(Box::new(c1), cc1, Box::new(c2), cc2);
                                    let b2 = b.update(
                                        i,
                                        (a, ss.update(ss.len() - 1, SStmt { addr: ss.last().addr, kind: SKind::Goto(Some(comp), 5, ft) })),
                                    );
                                    Some(b2.remove(fi))
                                } else {
                                    None
                                },
                                _ => None,
                            }
                        }
                    },
                }
            },
            _ => None,
        }
    }
}

/// The first merge, from the `j`th block on, that applies.
pub open spec fn merge_from(b: Seq<(u16, Seq<SStmt>)>, g: Map<u16, BasicBlock>, hs: Seq<u16>, j: int) -> Option<
    Seq<(u16, Seq<SStmt>)>,
>
    decreases b.len() - j,
{
    if j < 0 || j >= b.len() {
        None
    } else {
        match merge_at(b, g, hs, j) {
            Some(r) => Some(r),
            None => merge_from(b, g, hs, j + 1),
        }
    }
}

pub proof fn lemma_merge_at(b: Seq<(u16, Seq<SStmt>)>, g: Map<u16, BasicBlock>, hs: Seq<u16>, i: int)
    requires
        0 <= i < b.len(),
    ensures
        merge_at(b, g, hs, i) matches Some(r) ==> r.len() == b.len() - 1,
{
    let ss = b[i].1;
    if let Some(r) = merge_at(b, g, hs, i) {
        if let SKind::Goto(Some(c1), cc1, ft) = ss.last().kind {
            if let Some(f) = first_other(g[b[i].0].succs@, ft, 0) {
                lemma_bfind(b, f, 0);
            }
        }
    }
}

pub proof fn lemma_merge_from(b: Seq<(u16, Seq<SStmt>)>, g: Map<u16, BasicBlock>, hs: Seq<u16>, j: int)
    ensures
        merge_from(b, g, hs, j) matches Some(r) ==> r.len() == b.len() - 1,
    decreases b.len() - j,
{
    if 0 <= j < b.len() {
        lemma_merge_at(b, g, hs, j);
        lemma_merge_from(b, g, hs, j + 1);
    }
}

/// Merges, one at a time and each time from the first block, until none
/// applies.
pub open spec fn merge_fix(b: Seq<(u16, Seq<SStmt>)>, g: Map<u16, BasicBlock>, hs: Seq<u16>) -> Seq<(u16, Seq<SStmt>)>
    decreases b.len(),
{
    match merge_from(b, g, hs, 0) {
        Some(r) => {
            proof {
                lemma_merge_from(b, g, hs, 0);
            }
            merge_fix(r, g, hs)
        },
        None => b,
    }
}

proof fn lemma_blocks_view_remove(e: Seq<(u16, Vec<IRStmt>)>, i: int)
    requires
        0 <= i < e.len(),
    ensures
        blocks_view(e.remove(i)) == blocks_view(e).remove(i),
{
    lemma_blocks_view(e);
    lemma_blocks_view(e.remove(i));
    assert(blocks_view(e.remove(i)) =~= blocks_view(e).remove(i));
}

/// Computes `first_other`.
fn first_other_of(succs: &Vec<u16>, t: u16) -> (r: Option<u16>)
    ensures
        r == first_other(succs@, t, 0),
{
    let mut j: usize = 0;
    while j < succs.len()
        invariant
            j <= succs@.len(),
            first_other(succs@, t, 0) == first_other(succs@, t, j as int),
        decreases succs@.len() - j,
    {
        if succs[j] != t {
            return Some(succs[j]);
        }
        j = j + 1;
    }
    None
}

/// Computes `merge_at`.
fn merge_try(gb: &AddrMap<Vec<IRStmt>>, cfg: &AddrMap<BasicBlock>, hs: &Vec<u16>, i: usize) -> (r: Option<
    AddrMap<Vec<IRStmt>>,
>)
    requires
        cfg.wf(),
        i < gb.entries@.len(),
    ensures
        match r {
            Some(m) => merge_at(blocks_view(gb.entries@), cfg.map(), hs@, i as int) == Some(blocks_view(m.entries@))
                && (gb.wf() ==> m.wf()),
            None => merge_at(blocks_view(gb.entries@), cfg.map(), hs@, i as int) is None,
        },
{
    let ghost bv = blocks_view(gb.entries@);
    proof {
        lemma_blocks_view(gb.entries@);
    }
    let a = gb.entries[i].0;
    let ss = &gb.entries[i].1;
    proof {
        lemma_stmts_view(ss@);
    }
    if has_addr(hs, a) {
        return None;
    }
    let succs = match cfg.get(a) {
        Some(b) => &b.succs,
        None => {
            return None;
        },
    };
    if succs.len() != 2 || ss.len() == 0 {
        return None;
    }
    let n = ss.len();
    if let IRStmtKind::Goto(Some(c1), cc1, ft) = &ss[n - 1].kind {
        let ft = *ft;
        let cc1 = *cc1;
        if cc1 == 7 {
            return None;
        }
        let f = match first_other_of(succs, ft) {
            Some(f) => f,
            None => {
                return None;
            },
        };
        let fsuccs = match cfg.get(f) {
            Some(b) => &b.succs,
            None => {
                return None;
            },
        };
        if fsuccs.len() != 2 || !has_addr(fsuccs, ft) {
            return None;
        }
        let fi = match find_block_any(gb, f) {
            Some(fi) => fi,
            None => {
                return None;
            },
        };
        proof {
            lemma_bfind(bv, f, 0);
        }
        let fss = &gb.entries[fi].1;
        proof {
            lemma_stmts_view(fss@);
        }
        if fss.len() == 0 {
            return None;
        }
        if let IRStmtKind::Goto(Some(c2), cc2, t2) = &fss[fss.len() - 1].kind {
            if *t2 == ft && *cc2 != 7 && fss.len() == 1 {
                let comp = Expr::LogicalOr(Box::new(c1.duplicate()), cc1, Box::new(c2.duplicate()), *cc2);
                let mut ns = duplicate_stmts(ss);
                proof {
                    lemma_stmts_view(ns@);
                }
                let st = IRStmt { addr: ss[n - 1].addr, kind: IRStmtKind::Goto(Some(comp), 5, ft) };
                proof {
                    lemma_view_update(ns@, n - 1, st);
                }
                ns.set(n - 1, st);
                let mut m = crate::ir::duplicate_blocks(gb);
                proof {
                    assert(m.key_seq().len() == m.entries@.len());
                    assert(gb.key_seq().len() == gb.entries@.len());
                    assert(m.key_seq()[i as int] == m.entries@[i as int].0);
                    assert(gb.key_seq()[i as int] == gb.entries@[i as int].0);
                }
                put_block(&mut m, i, ns);
                let ghost e1 = m.entries@;
                proof {
                    lemma_blocks_view_remove(m.entries@, fi as int);
                    assert(m.entries@.len() == gb.entries@.len());
                }
                m.entries.remove(fi);
                proof {
                    if gb.wf() {
                        assert forall|x: int, y: int| 0 <= x < y < m.entries@.len() implies #[trigger] m.entries@[x].0
                            < #[trigger] m.entries@[y].0 by {
                            let x0 = if x < fi { x } else { x + 1 };
                            let y0 = if y < fi { y } else { y + 1 };
                            assert(e1[x0].0 < e1[y0].0);
                        }
                    }
                }
                return Some(m);
            }
        }
        None
    } else {
        None
    }
}

/// Merges two conditional gotos to the same target, in blocks that follow
/// each other, into one goto on their `||`, until no such pair is left (see
/// `merge_at`).
pub fn merge_compound_conditions(
    goto_blocks: &mut AddrMap<Vec<IRStmt>>,
    cfg_blocks: &AddrMap<BasicBlock>,
    natural_loops: &Vec<NaturalLoop>,
)
    requires
        cfg_blocks.wf(),
    ensures
        blocks_view(final(goto_blocks).entries@) == merge_fix(
            blocks_view(old(goto_blocks).entries@),
            cfg_blocks.map(),
            headers_of(natural_loops@),
        ),
        old(goto_blocks).wf() ==> final(goto_blocks).wf(),
        old(goto_blocks).wf() ==> merged_from(
            blocks_view(old(goto_blocks).entries@),
            blocks_view(final(goto_blocks).entries@),
            headers_of(natural_loops@),
        ),
{
    proof {
        let e = goto_blocks.entries@;
        let b = blocks_view(e);
        lemma_blocks_view(e);
        if goto_blocks.wf() {
            assert forall|i: int, j: int| 0 <= i < j < b.len() implies #[trigger] b[i].0 != #[trigger] b[j].0 by {
                assert(e[i].0 < e[j].0);
            }
            law_merge_compound_conditions(b, cfg_blocks.map(), headers_of(natural_loops@));
        }
    }
    let mut hs: Vec<u16> = Vec::new();
    let mut q: usize = 0;
    while q < natural_loops.len()
        invariant
            q <= natural_loops@.len(),
            hs@ == headers_of(natural_loops@).subrange(0, q as int),
        decreases natural_loops@.len() - q,
    {
        hs.push(natural_loops[q].header);
        q = q + 1;
        proof {
            assert(hs@ =~= headers_of(natural_loops@).subrange(0, q as int));
        }
    }
    proof {
        assert(hs@ =~= headers_of(natural_loops@));
    }
    let ghost g = cfg_blocks.map();
    let ghost target = merge_fix(blocks_view(goto_blocks.entries@), g, hs@);
    let ghost was_wf = goto_blocks.wf();
    loop
        invariant_except_break
            merge_fix(blocks_view(goto_blocks.entries@), g, hs@) == target,
        invariant
            cfg_blocks.wf(),
            g == cfg_blocks.map(),
            was_wf ==> goto_blocks.wf(),
        ensures
            blocks_view(goto_blocks.entries@) == target,
        decreases goto_blocks.entries@.len(),
    {
        let ghost bv = blocks_view(goto_blocks.entries@);
        proof {
            lemma_blocks_view(goto_blocks.entries@);
            lemma_merge_from(bv, g, hs@, 0);
        }
        let mut found: Option<AddrMap<Vec<IRStmt>>> = None;
        let mut i: usize = 0;
        while i < goto_blocks.entries.len()
            invariant_except_break
                found is None,
            invariant
                i <= goto_blocks.entries@.len(),
                bv == blocks_view(goto_blocks.entries@),
                bv.len() == goto_blocks.entries@.len(),
                cfg_blocks.wf(),
                g == cfg_blocks.map(),
                merge_from(bv, g, hs@, 0) == merge_from(bv, g, hs@, i as int),
            ensures
                match found {
                    Some(m) => merge_from(bv, g, hs@, 0) == Some(blocks_view(m.entries@)) && (goto_blocks.wf() ==> m.wf()),
                    None => merge_from(bv, g, hs@, 0) is None,
                },
            decreases goto_blocks.entries@.len() - i,
        {
            let r = merge_try(goto_blocks, cfg_blocks, &hs, i);
            if r.is_some() {
                found = r;
                break;
            }
            i = i + 1;
        }
        match found {
            Some(m) => {
                proof {
                    lemma_blocks_view(m.entries@);
                }
                *goto_blocks = m;
            },
            None => {
                break;
            },
        }
    }
}

/// Whether conditional `a` branches to the block where `b` branches.
pub open spec fn points_to(a: Conditional, b: Conditional) -> bool {
    a.true_block == b.condition_block || a.false_block == Some(b.condition_block)
}

/// The order used to sort conditionals: `a` comes before `b` when `b`
/// branches to `a`'s block and not the other way round.
pub open spec fn cond_less(a: Conditional, b: Conditional) -> bool {
    !points_to(a, b) && points_to(b, a)
}

/// Where the insertion sort puts index `x` into the sorted prefix `s[..j]`:
/// to the left of the elements it is less than, from the right.
pub open spec fn cond_ins_pos(s: Seq<int>, x: int, conds: Seq<Conditional>, j: int) -> int
    decreases j,
{
    if j > 0 && j <= s.len() && cond_less(conds[x], conds[s[j - 1]]) {
        cond_ins_pos(s, x, conds, j - 1)
    } else {
        j
    }
}

/// The indices sorted by insertion, each inserted from the right.
pub open spec fn sort_conds(idx: Seq<int>, conds: Seq<Conditional>) -> Seq<int>
    decreases idx.len(),
{
    if idx.len() == 0 {
        Seq::empty()
    } else {
        let s = sort_conds(idx.drop_last(), conds);
        s.insert(cond_ins_pos(s, idx.last(), conds, s.len() as int), idx.last())
    }
}

/// The indices of the first `n` conditionals whose branching block is in `b`.
pub open spec fn applicable(b: Seq<(u16, Seq<SStmt>)>, conds: Seq<Conditional>, n: int) -> Seq<int>
    decreases n,
{
    if n <= 0 {
        Seq::empty()
    } else {
        let r = applicable(b, conds, n - 1);
        if bfind(b, conds[n - 1].condition_block, 0) >= 0 {
            r.push(n - 1)
        } else {
            r
        }
    }
}

/// Takes the block at `k` out, without a final goto to `join`.
pub open spec fn take_block(b: Seq<(u16, Seq<SStmt>)>, k: u16, join: u16) -> (Seq<(u16, Seq<SStmt>)>, Option<Seq<SStmt>>) {
    let i = bfind(b, k, 0);
    if i < 0 {
        (b, None)
    } else {
        let ss = b[i].1;
        let ss2 = if ss.len() > 0 && (ss.last().kind matches SKind::Goto(_, _, t) && t == join) {
            ss.drop_last()
        } else {
            ss
        };
        (b.remove(i), Some(ss2))
    }
}

/// Structures one conditional: the goto ending its branching block becomes
/// an `If` holding the statements of its branch blocks, which leave the map.
pub open spec fn apply_cond(b: Seq<(u16, Seq<SStmt>)>, c: Conditional) -> Seq<(u16, Seq<SStmt>)> {
    let ci = bfind(b, c.condition_block, 0);
    if ci < 0 || b[ci].1.len() == 0 {
        b
    } else {
        let ss = b[ci].1;
        match ss.last().kind {
            SKind::Goto(Some(ex), cc, target) => {
                let sa = ss.last().addr;
                let (b2, ts, fs, fcc) = match c.kind {
                    ConditionalType::IfElse => {
                        let (b2, t) = take_block(b, c.true_block, c.join_block);
                        let (b3, f) = match c.false_block {
                            Some(fb) => take_block(b2, fb, c.join_block),
                            None => (b2, None),
                        };
                        (
                            b3,
                            match t {
                                Some(x) => x,
                                None => Seq::empty(),
                            },
                            f,
                            cc,
                        )
                    },
                    ConditionalType::If => {
                        let (b2, t) = take_block(b, c.true_block, c.join_block);
                        (
                            b2,
                            match t {
                                Some(x) => x,
                                None => Seq::empty(),
                            },
                            None,
                            if target == c.join_block {
                                crate::refine::flip_cc(cc)
                            } else {
                                cc
                            },
                        )
                    },
                };
                let ci2 = bfind(b2, c.condition_block, 0);
                if ci2 >= 0 && b2[ci2].1.len() > 0 {
                    let s2 = b2[ci2].1;
                    b2.update(
                        ci2,
                        (c.condition_block, s2.update(s2.len() - 1, SStmt { addr: sa, kind: SKind::If(Some(ex), fcc, ts, fs) })),
                    )
                } else {
                    b2
                }
            },
            _ => b,
        }
    }
}

/// The conditionals at the indices `order` structured in turn.
pub open spec fn apply_all(b: Seq<(u16, Seq<SStmt>)>, order: Seq<int>, conds: Seq<Conditional>) -> Seq<(u16, Seq<SStmt>)>
    decreases order.len(),
{
    if order.len() == 0 {
        b
    } else {
        apply_cond(apply_all(b, order.drop_last(), conds), conds[order.last()])
    }
}

/// Conditional structuring of a block map: loop bodies first, then the
/// conditionals branching in this map, sorted by `sort_conds`.
pub open spec fn sc_conds(b: Seq<(u16, Seq<SStmt>)>, conds: Seq<Conditional>) -> Seq<(u16, Seq<SStmt>)>
    decreases b, 1int,
{
    let b1 = nest_blocks(b, conds);
    apply_all(b1, sort_conds(applicable(b1, conds, conds.len() as int), conds), conds)
}

/// `nest_stmts` of every block.
pub open spec fn nest_blocks(b: Seq<(u16, Seq<SStmt>)>, conds: Seq<Conditional>) -> Seq<(u16, Seq<SStmt>)>
    decreases b, 0int,
{
    if b.len() == 0 {
        Seq::empty()
    } else {
        nest_blocks(b.drop_last(), conds).push((b.last().0, nest_stmts(b.last().1, conds)))
    }
}

/// `nest_stmt` of every statement.
pub open spec fn nest_stmts(ss: Seq<SStmt>, conds: Seq<Conditional>) -> Seq<SStmt>
    decreases ss, 0int,
{
    if ss.len() == 0 {
        Seq::empty()
    } else {
        nest_stmts(ss.drop_last(), conds).push(nest_stmt(ss.last(), conds))
    }
}

/// A loop with its body structured by `sc_conds`.
pub open spec fn nest_stmt(s: SStmt, conds: Seq<Conditional>) -> SStmt
    decreases s, 0int,
{
    match s.kind {
        SKind::DoWhile(c, cc, body) => SStmt { addr: s.addr, kind: SKind::DoWhile(c, cc, sc_conds(body, conds)) },
        SKind::While(c, cc, body) => SStmt { addr: s.addr, kind: SKind::While(c, cc, sc_conds(body, conds)) },
        SKind::For(i, c, cc, n, body) => SStmt { addr: s.addr, kind: SKind::For(i, c, cc, n, sc_conds(body, conds)) },
        _ => s,
    }
}

/// Computes `take_block`.
fn take_block_exec(m: &mut AddrMap<Vec<IRStmt>>, k: u16, join: u16) -> (r: Option<Vec<IRStmt>>)
    ensures
        (blocks_view(final(m).entries@), match r {
            Some(v) => Some(stmts_view(v@)),
            None => None,
        }) == take_block(blocks_view(old(m).entries@), k, join),
        old(m).wf() ==> final(m).wf(),
{
    let ghost bv = blocks_view(m.entries@);
    match find_block_any(m, k) {
        Some(i) => {
            proof {
                lemma_bfind(bv, k, 0);
                lemma_blocks_view(m.entries@);
            }
            let mut ss = duplicate_stmts(&m.entries[i].1);
            let ghost s0 = ss@;
            proof {
                lemma_stmts_view(ss@);
            }
            let n = ss.len();
            let drop = n > 0 && match &ss[n - 1].kind {
                IRStmtKind::Goto(_, _, t) => *t == join,
                _ => false,
            };
            if drop {
                ss.pop();
                proof {
                    assert(ss@ =~= s0.drop_last());
                }
            }
            let ghost e1 = m.entries@;
            proof {
                lemma_blocks_view_remove(m.entries@, i as int);
            }
            m.entries.remove(i);
            proof {
                if crate::addr_map::sorted_keys(e1) {
                    assert forall|x: int, y: int| 0 <= x < y < m.entries@.len() implies #[trigger] m.entries@[x].0
                        < #[trigger] m.entries@[y].0 by {
                        let x0 = if x < i { x } else { x + 1 };
                        let y0 = if y < i { y } else { y + 1 };
                        assert(e1[x0].0 < e1[y0].0);
                    }
                }
            }
            Some(ss)
        },
        None => None,
    }
}

/// Computes `apply_cond`.
fn apply_cond_exec(m: &mut AddrMap<Vec<IRStmt>>, c: &Conditional)
    ensures
        blocks_view(final(m).entries@) == apply_cond(blocks_view(old(m).entries@), *c),
        old(m).wf() ==> final(m).wf(),
{
    let ghost bv = blocks_view(m.entries@);
    let ci = match find_block_any(m, c.condition_block) {
        Some(ci) => ci,
        None => {
            return;
        },
    };
    proof {
        lemma_bfind(bv, c.condition_block, 0);
        lemma_blocks_view(m.entries@);
        lemma_stmts_view(m.entries@[ci as int].1@);
    }
    let n = m.entries[ci].1.len();
    if n == 0 {
        return;
    }
    let (ex, cc, target, sa) = match &m.entries[ci].1[n - 1].kind {
        IRStmtKind::Goto(Some(ex), cc, target) => (ex.duplicate(), *cc, *target, m.entries[ci].1[n - 1].addr),
        _ => {
            return;
        },
    };
    let mut true_stmts: Vec<IRStmt> = Vec::new();
    let mut false_stmts: Option<Vec<IRStmt>> = None;
    let mut final_cc = cc;
    proof {
        assert(stmts_view(true_stmts@) =~= Seq::<SStmt>::empty());
    }
    match c.kind {
        ConditionalType::IfElse => {
            if let Some(ts) = take_block_exec(m, c.true_block, c.join_block) {
                true_stmts = ts;
            }
            if let Some(fb) = c.false_block {
                false_stmts = take_block_exec(m, fb, c.join_block);
            }
        },
        ConditionalType::If => {
            if let Some(ts) = take_block_exec(m, c.true_block, c.join_block) {
                true_stmts = ts;
            }
            if target == c.join_block {
                final_cc = (!final_cc) & 7;
            }
        },
    }
    let ghost b2 = blocks_view(m.entries@);
    match find_block_any(m, c.condition_block) {
        Some(ci2) => {
            proof {
                lemma_bfind(b2, c.condition_block, 0);
                lemma_blocks_view(m.entries@);
                lemma_stmts_view(m.entries@[ci2 as int].1@);
            }
            let n2 = m.entries[ci2].1.len();
            if n2 > 0 {
                let st = IRStmt { addr: sa, kind: IRStmtKind::If(Some(ex), final_cc, true_stmts, false_stmts) };
                let mut v = duplicate_stmts(&m.entries[ci2].1);
                proof {
                    lemma_stmts_view(v@);
                    lemma_view_update(v@, n2 - 1, st);
                }
                v.set(n2 - 1, st);
                proof {
                    assert(m.key_seq().len() == m.entries@.len());
                }
                put_block(m, ci2, v);
            }
        },
        None => {},
    }
}

/// The indices as integers.
pub open spec fn ints(v: Seq<usize>) -> Seq<int> {
    Seq::new(v.len(), |i: int| v[i] as int)
}

/// Computes `cond_less`.
fn is_cond_less(a: &Conditional, b: &Conditional) -> (r: bool)
    ensures
        r == cond_less(*a, *b),
{
    let a_to_b = a.true_block == b.condition_block || match a.false_block {
        Some(f) => f == b.condition_block,
        None => false,
    };
    let b_to_a = b.true_block == a.condition_block || match b.false_block {
        Some(f) => f == a.condition_block,
        None => false,
    };
    !a_to_b && b_to_a
}

/// Computes `sort_conds`.
fn sort_cond_indices(idx: &Vec<usize>, conds: &Vec<Conditional>) -> (r: Vec<usize>)
    requires
        forall|i: int| 0 <= i < idx@.len() ==> #[trigger] idx@[i] < conds@.len(),
    ensures
        ints(r@) == sort_conds(ints(idx@), conds@),
        forall|i: int| 0 <= i < r@.len() ==> #[trigger] r@[i] < conds@.len(),
{
    let mut sorted: Vec<usize> = Vec::new();
    let mut q: usize = 0;
    proof {
        assert(ints(sorted@) =~= sort_conds(ints(idx@).subrange(0, 0), conds@));
    }
    while q < idx.len()
        invariant
            q <= idx@.len(),
            forall|i: int| 0 <= i < idx@.len() ==> #[trigger] idx@[i] < conds@.len(),
            forall|i: int| 0 <= i < sorted@.len() ==> #[trigger] sorted@[i] < conds@.len(),
            ints(sorted@) == sort_conds(ints(idx@).subrange(0, q as int), conds@),
        decreases idx@.len() - q,
    {
        let ghost s0 = ints(sorted@);
        proof {
            let x = ints(idx@).subrange(0, q + 1);
            assert(x.drop_last() =~= ints(idx@).subrange(0, q as int));
            assert(x.last() == idx@[q as int] as int);
        }
        let x = idx[q];
        let a = conds[x];
        let mut j: usize = sorted.len();
        while j > 0 && is_cond_less(&a, &conds[sorted[j - 1]])
            invariant
                j <= sorted@.len(),
                s0 == ints(sorted@),
                x < conds@.len(),
                a == conds@[x as int],
                forall|i: int| 0 <= i < sorted@.len() ==> #[trigger] sorted@[i] < conds@.len(),
                cond_ins_pos(s0, x as int, conds@, s0.len() as int) == cond_ins_pos(s0, x as int, conds@, j as int),
            decreases j,
        {
            j = j - 1;
        }
        sorted.insert(j, x);
        proof {
            assert(ints(sorted@) =~= s0.insert(j as int, x as int));
        }
        q = q + 1;
    }
    proof {
        assert(ints(idx@).subrange(0, q as int) =~= ints(idx@));
    }
    sorted
}

/// Computes `sc_conds`.
fn sc_exec(m: &AddrMap<Vec<IRStmt>>, conditionals: &Vec<Conditional>) -> (r: AddrMap<Vec<IRStmt>>)
    ensures
        blocks_view(r.entries@) == sc_conds(blocks_view(m.entries@), conditionals@),
    decreases m, 1int,
{
    let mut b1 = nest_blocks_exec(m, conditionals);
    let ghost b1v = blocks_view(b1.entries@);
    let mut idx: Vec<usize> = Vec::new();
    let mut i: usize = 0;
    proof {
        assert(ints(idx@) =~= applicable(b1v, conditionals@, 0));
    }
    while i < conditionals.len()
        invariant
            i <= conditionals@.len(),
            b1v == blocks_view(b1.entries@),
            forall|q: int| 0 <= q < idx@.len() ==> #[trigger] idx@[q] < conditionals@.len(),
            ints(idx@) == applicable(b1v, conditionals@, i as int),
        decreases conditionals@.len() - i,
    {
        let ghost i0 = idx@;
        if find_block_any(&b1, conditionals[i].condition_block).is_some() {
            idx.push(i);
            proof {
                assert(ints(idx@) =~= ints(i0).push(i as int));
            }
        }
        i = i + 1;
    }
    let order = sort_cond_indices(&idx, conditionals);
    let ghost ov = ints(order@);
    let mut k: usize = 0;
    proof {
        assert(ov.subrange(0, 0) =~= Seq::<int>::empty());
    }
    while k < order.len()
        invariant
            k <= order@.len(),
            ov == ints(order@),
            forall|q: int| 0 <= q < order@.len() ==> #[trigger] order@[q] < conditionals@.len(),
            blocks_view(b1.entries@) == apply_all(b1v, ov.subrange(0, k as int), conditionals@),
        decreases order@.len() - k,
    {
        proof {
            let x = ov.subrange(0, k + 1);
            assert(x.drop_last() =~= ov.subrange(0, k as int));
            assert(x.last() == order@[k as int] as int);
        }
        apply_cond_exec(&mut b1, &conditionals[order[k]]);
        k = k + 1;
    }
    proof {
        assert(ov.subrange(0, k as int) =~= ov);
    }
    b1
}

/// Computes `nest_blocks`.
fn nest_blocks_exec(m: &AddrMap<Vec<IRStmt>>, conditionals: &Vec<Conditional>) -> (r: AddrMap<Vec<IRStmt>>)
    ensures
        blocks_view(r.entries@) == nest_blocks(blocks_view(m.entries@), conditionals@),
    decreases m, 0int,
{
    let mut entries: Vec<(u16, Vec<IRStmt>)> = Vec::new();
    let mut i: usize = 0;
    while i < m.entries.len()
        invariant
            i <= m.entries@.len(),
            blocks_view(entries@) == nest_blocks(blocks_view(m.entries@.subrange(0, i as int)), conditionals@),
        decreases m.entries@.len() - i,
    {
        proof {
            assert(decreases_to!(m => m.entries));
            assert(decreases_to!(m.entries => m.entries[i as int]));
            assert(decreases_to!(m.entries[i as int] => m.entries[i as int].1));
            let x = m.entries@.subrange(0, i + 1);
            assert(x.drop_last() =~= m.entries@.subrange(0, i as int));
            assert(blocks_view(x).drop_last() == blocks_view(x.drop_last()));
        }
        let v = nest_stmts_exec(&m.entries[i].1, conditionals);
        let ghost e0 = entries@;
        entries.push((m.entries[i].0, v));
        proof {
            assert(entries@.drop_last() =~= e0);
        }
        i = i + 1;
    }
    proof {
        assert(m.entries@.subrange(0, i as int) =~= m.entries@);
    }
    AddrMap { entries }
}

/// Computes `nest_stmts`.
fn nest_stmts_exec(v: &Vec<IRStmt>, conditionals: &Vec<Conditional>) -> (r: Vec<IRStmt>)
    ensures
        stmts_view(r@) == nest_stmts(stmts_view(v@), conditionals@),
    decreases v, 0int,
{
    let mut out: Vec<IRStmt> = Vec::new();
    let mut i: usize = 0;
    while i < v.len()
        invariant
            i <= v@.len(),
            stmts_view(out@) == nest_stmts(stmts_view(v@.subrange(0, i as int)), conditionals@),
        decreases v@.len() - i,
    {
        proof {
            assert(decreases_to!(v => v[i as int]));
            let x = v@.subrange(0, i + 1);
            assert(x.drop_last() =~= v@.subrange(0, i as int));
            assert(stmts_view(x).drop_last() == stmts_view(x.drop_last()));
        }
        let st = nest_stmt_exec(&v[i], conditionals);
        let ghost o0 = out@;
        out.push(st);
        proof {
            assert(out@.drop_last() =~= o0);
        }
        i = i + 1;
    }
    proof {
        assert(v@.subrange(0, i as int) =~= v@);
    }
    out
}

/// Computes `nest_stmt`.
fn nest_stmt_exec(s: &IRStmt, conditionals: &Vec<Conditional>) -> (r: IRStmt)
    ensures
        r@ == nest_stmt(s@, conditionals@),
    decreases s, 0int,
{
    match &s.kind {
        IRStmtKind::DoWhile(c, cc, body) => IRStmt {
            addr: s.addr,
            kind: IRStmtKind::DoWhile(duplicate_opt(c), *cc, sc_exec(body, conditionals)),
        },
        IRStmtKind::While(c, cc, body) => IRStmt {
            addr: s.addr,
            kind: IRStmtKind::While(duplicate_opt(c), *cc, sc_exec(body, conditionals)),
        },
        IRStmtKind::For(i, c, cc, n, body) => IRStmt {
            addr: s.addr,
            kind: IRStmtKind::For(
                Box::new(i.duplicate()),
                duplicate_opt(c),
                *cc,
                Box::new(n.duplicate()),
                sc_exec(body, conditionals),
            ),
        },
        _ => s.duplicate(),
    }
}

/// Turns each conditional into an `If` (with `else` for diamonds) holding
/// the statements of its branch blocks, inside loop bodies first (see
/// `sc_conds`).
pub fn structure_conditionals(blocks: &mut AddrMap<Vec<IRStmt>>, conditionals: &Vec<Conditional>)
    ensures
        blocks_view(final(blocks).entries@) == sc_conds(blocks_view(old(blocks).entries@), conditionals@),
{
    let r = sc_exec(blocks, conditionals);
    *blocks = r;
}

/// The statements without a trailing `Continue`.
pub open spec fn drop_continue(s: Seq<SStmt>) -> Seq<SStmt> {
    if s.len() > 0 && s.last().kind is Continue {
        s.drop_last()
    } else {
        s
    }
}

/// A statement without the redundant `Continue`s: those ending a branch of
/// an `If`, removed in nested `If`s and loop bodies too.
pub open spec fn rrc_stmt(s: SStmt) -> SStmt
    decreases s, 0int,
{
    match s.kind {
        SKind::If(c, cc, t, f) => SStmt {
            addr: s.addr,
            kind: SKind::If(
                c,
                cc,
                rrc_stmts(drop_continue(t)),
                match f {
                    Some(fs) => Some(rrc_stmts(drop_continue(fs))),
                    None => None,
                },
            ),
        },
        SKind::DoWhile(c, cc, body) => SStmt { addr: s.addr, kind: SKind::DoWhile(c, cc, rrc_blocks(body)) },
        SKind::While(c, cc, body) => SStmt { addr: s.addr, kind: SKind::While(c, cc, rrc_blocks(body)) },
        SKind::For(i, c, cc, n, body) => SStmt { addr: s.addr, kind: SKind::For(i, c, cc, n, rrc_blocks(body)) },
        _ => s,
    }
}

/// `rrc_stmt` of every statement.
pub open spec fn rrc_stmts(ss: Seq<SStmt>) -> Seq<SStmt>
    decreases ss, 1int,
{
    if ss.len() == 0 {
        Seq::empty()
    } else {
        rrc_stmts(ss.drop_last()).push(rrc_stmt(ss.last()))
    }
}

/// `rrc_stmts` of every block.
pub open spec fn rrc_blocks(b: Seq<(u16, Seq<SStmt>)>) -> Seq<(u16, Seq<SStmt>)>
    decreases b, 0int,
{
    if b.len() == 0 {
        Seq::empty()
    } else {
        rrc_blocks(b.drop_last()).push((b.last().0, rrc_stmts(b.last().1)))
    }
}

/// The number of leading statements that `drop_continue` keeps.
fn kept_len(v: &Vec<IRStmt>) -> (n: usize)
    ensures
        n <= v@.len(),
        stmts_view(v@).subrange(0, n as int) == drop_continue(stmts_view(v@)),
{
    proof {
        lemma_stmts_view(v@);
    }
    let len = v.len();
    if len > 0 {
        if let IRStmtKind::Continue = &v[len - 1].kind {
            proof {
                assert(stmts_view(v@).subrange(0, len - 1) =~= stmts_view(v@).drop_last());
            }
            return len - 1;
        }
    }
    proof {
        assert(stmts_view(v@).subrange(0, len as int) =~= stmts_view(v@));
    }
    len
}

/// Computes `rrc_stmts` of the first `n` statements.
fn rrc_prefix(v: &Vec<IRStmt>, n: usize) -> (r: Vec<IRStmt>)
    requires
        n <= v@.len(),
    ensures
        stmts_view(r@) == rrc_stmts(stmts_view(v@).subrange(0, n as int)),
    decreases v, 1int,
{
    proof {
        lemma_stmts_view(v@);
    }
    let ghost sv = stmts_view(v@);
    let mut out: Vec<IRStmt> = Vec::new();
    let mut i: usize = 0;
    proof {
        assert(sv.subrange(0, 0) =~= Seq::<SStmt>::empty());
    }
    while i < n
        invariant
            i <= n,
            n <= v@.len(),
            sv == stmts_view(v@),
            sv.len() == v@.len(),
            forall|q: int| 0 <= q < v@.len() ==> #[trigger] sv[q] == stmt_view(v@[q]),
            stmts_view(out@) == rrc_stmts(sv.subrange(0, i as int)),
        decreases n - i,
    {
        proof {
            assert(decreases_to!(v => v[i as int]));
            let x = sv.subrange(0, i + 1);
            assert(x.drop_last() =~= sv.subrange(0, i as int));
            assert(x.last() == sv[i as int]);
        }
        let st = rrc_stmt_exec(&v[i]);
        let ghost o0 = out@;
        out.push(st);
        proof {
            assert(out@.drop_last() =~= o0);
        }
        i = i + 1;
    }
    out
}

/// Computes `rrc_stmt`.
fn rrc_stmt_exec(s: &IRStmt) -> (r: IRStmt)
    ensures
        r@ == rrc_stmt(s@),
    decreases s, 0int,
{
    match &s.kind {
        IRStmtKind::If(c, cc, t, f) => {
            let nt = kept_len(t);
            let t2 = rrc_prefix(t, nt);
            let f2 = match f {
                Some(fs) => {
                    let nf = kept_len(fs);
                    Some(rrc_prefix(fs, nf))
                },
                None => None,
            };
            IRStmt { addr: s.addr, kind: IRStmtKind::If(duplicate_opt(c), *cc, t2, f2) }
        },
        IRStmtKind::DoWhile(c, cc, body) => IRStmt {
            addr: s.addr,
            kind: IRStmtKind::DoWhile(duplicate_opt(c), *cc, rrc_blocks_exec(body)),
        },
        IRStmtKind::While(c, cc, body) => IRStmt {
            addr: s.addr,
            kind: IRStmtKind::While(duplicate_opt(c), *cc, rrc_blocks_exec(body)),
        },
        IRStmtKind::For(i, c, cc, n, body) => IRStmt {
            addr: s.addr,
            kind: IRStmtKind::For(
                Box::new(i.duplicate()),
                duplicate_opt(c),
                *cc,
                Box::new(n.duplicate()),
                rrc_blocks_exec(body),
            ),
        },
        _ => s.duplicate(),
    }
}

/// Computes `rrc_blocks`.
fn rrc_blocks_exec(m: &AddrMap<Vec<IRStmt>>) -> (r: AddrMap<Vec<IRStmt>>)
    ensures
        blocks_view(r.entries@) == rrc_blocks(blocks_view(m.entries@)),
        r.key_seq() == m.key_seq(),
        m.wf() ==> r.wf(),
    decreases m, 0int,
{
    let mut entries: Vec<(u16, Vec<IRStmt>)> = Vec::new();
    let mut i: usize = 0;
    while i < m.entries.len()
        invariant
            i <= m.entries@.len(),
            entries@.len() == i,
            forall|q: int| 0 <= q < i ==> #[trigger] entries@[q].0 == m.entries@[q].0,
            blocks_view(entries@) == rrc_blocks(blocks_view(m.entries@.subrange(0, i as int))),
        decreases m.entries@.len() - i,
    {
        proof {
            assert(decreases_to!(m => m.entries));
            assert(decreases_to!(m.entries => m.entries[i as int]));
            assert(decreases_to!(m.entries[i as int] => m.entries[i as int].1));
            let x = m.entries@.subrange(0, i + 1);
            assert(x.drop_last() =~= m.entries@.subrange(0, i as int));
            assert(blocks_view(x).drop_last() == blocks_view(x.drop_last()));
            lemma_stmts_view(m.entries@[i as int].1@);
            assert(stmts_view(m.entries@[i as int].1@).subrange(0, m.entries@[i as int].1@.len() as int) =~= stmts_view(
                m.entries@[i as int].1@,
            ));
        }
        let v = rrc_prefix(&m.entries[i].1, m.entries[i].1.len());
        let ghost e0 = entries@;
        entries.push((m.entries[i].0, v));
        proof {
            assert(entries@.drop_last() =~= e0);
        }
        i = i + 1;
    }
    proof {
        assert(m.entries@.subrange(0, i as int) =~= m.entries@);
    }
    let r = AddrMap { entries };
    proof {
        assert(r.key_seq() =~= m.key_seq());
        if m.wf() {
            assert forall|x: int, y: int| 0 <= x < y < r.entries@.len() implies #[trigger] r.entries@[x].0
                < #[trigger] r.entries@[y].0 by {
                assert(m.entries@[x].0 < m.entries@[y].0);
            }
        }
    }
    r
}

/// Removes the `Continue`s that end a branch of an `If`, in nested `If`s
/// and loop bodies too (see `rrc_stmt`).
pub fn remove_redundant_continues_from_stmts(stmts: &mut Vec<IRStmt>)
    ensures
        stmts_view(final(stmts)@) == rrc_stmts(stmts_view(old(stmts)@)),
{
    proof {
        lemma_stmts_view(stmts@);
        assert(stmts_view(stmts@).subrange(0, stmts@.len() as int) =~= stmts_view(stmts@));
    }
    let n = stmts.len();
    let r = rrc_prefix(stmts, n);
    *stmts = r;
}

/// Removes redundant `Continue`s from every block.
pub fn cleanup_control_flow(blocks: &mut AddrMap<Vec<IRStmt>>)
    ensures
        blocks_view(final(blocks).entries@) == rrc_blocks(blocks_view(old(blocks).entries@)),
        final(blocks).key_seq() == old(blocks).key_seq(),
        old(blocks).wf() ==> final(blocks).wf(),
{
    let ghost b0 = blocks_view(blocks.entries@);
    let ghost k0 = blocks.key_seq();
    let ghost w0 = blocks.wf();
    proof {
        lemma_blocks_view(blocks.entries@);
        assert(b0 =~= rrc_blocks(b0.subrange(0, 0)) + b0.subrange(0, b0.len() as int));
    }
    let mut i: usize = 0;
    while i < blocks.entries.len()
        invariant
            i <= blocks.entries@.len(),
            blocks.entries@.len() == b0.len(),
            blocks.key_seq() == k0,
            w0 ==> blocks.wf(),
            blocks_view(blocks.entries@) == rrc_blocks(b0.subrange(0, i as int)) + b0.subrange(i as int, b0.len() as int),
        decreases blocks.entries@.len() - i,
    {
        proof {
            lemma_blocks_view(blocks.entries@);
            lemma_rrc_blocks_len(b0.subrange(0, i as int));
            assert(blocks_view(blocks.entries@)[i as int] == b0[i as int]);
        }
        let mut v = duplicate_stmts(&blocks.entries[i].1);
        remove_redundant_continues_from_stmts(&mut v);
        let ghost before = blocks.entries@;
        put_block(blocks, i, v);
        proof {
            lemma_blocks_view(before);
            lemma_blocks_view(blocks.entries@);
            let p = b0.subrange(0, i + 1);
            assert(p.drop_last() =~= b0.subrange(0, i as int));
            assert(p.last() == b0[i as int]);
            lemma_rrc_blocks_len(b0.subrange(0, i as int));
            assert(blocks_view(blocks.entries@) =~= rrc_blocks(p) + b0.subrange(i + 1, b0.len() as int));
        }
        i = i + 1;
    }
    proof {
        assert(b0.subrange(0, i as int) =~= b0);
        assert(blocks_view(blocks.entries@) =~= rrc_blocks(b0));
    }
}

/// Removing redundant `Continue`s keeps the number of blocks.
proof fn lemma_rrc_blocks_len(b: Seq<(u16, Seq<SStmt>)>)
    ensures
        rrc_blocks(b).len() == b.len(),
    decreases b.len(),
{
    if b.len() > 0 {
        lemma_rrc_blocks_len(b.drop_last());
    }
}

/// Whether no two blocks share a start address.
pub open spec fn keys_distinct(b: Seq<(u16, Seq<SStmt>)>) -> bool {
    forall|i: int, j: int| 0 <= i < j < b.len() ==> #[trigger] b[i].0 != #[trigger] b[j].0
}

/// Whether a statement is a goto with a condition that is not always taken.
pub open spec fn cond_goto(s: SStmt) -> bool {
    s.kind matches SKind::Goto(Some(_), cc, _) && cc != 7
}

/// How merging may change the block at `k`: a loop header's block stays as
/// it is; another keeps its length and all its statements but the last,
/// and its last keeps its address and changes only where it was a
/// conditional goto.
pub open spec fn kept_block(hs: Seq<u16>, k: u16, old: Seq<SStmt>, new: Seq<SStmt>) -> bool {
    if hs.contains(k) {
        new == old
    } else {
        &&& new.len() == old.len()
        &&& forall|i: int| 0 <= i < old.len() - 1 ==> #[trigger] new[i] == old[i]
        &&& old.len() > 0 ==> new.last().addr == old.last().addr && (new.last() == old.last() || cond_goto(old.last()))
    }
}

/// Whether `b` has a block with the start of `x` that may become `x` by
/// merging.
pub open spec fn has_source(b: Seq<(u16, Seq<SStmt>)>, x: (u16, Seq<SStmt>), hs: Seq<u16>) -> bool {
    exists|j: int| 0 <= j < b.len() && b[j].0 == x.0 && #[trigger] kept_block(hs, b[j].0, b[j].1, x.1)
}

/// Whether `r` has a block that starts at `k`.
pub open spec fn has_start(r: Seq<(u16, Seq<SStmt>)>, k: u16) -> bool {
    exists|i: int| 0 <= i < r.len() && #[trigger] r[i].0 == k
}

/// Whether `r` is `b` after merges: each block of `r` is a kept block of
/// `b` with the same start, and each block of `b` is still there or was a
/// single conditional goto.
pub open spec fn merged_from(b: Seq<(u16, Seq<SStmt>)>, r: Seq<(u16, Seq<SStmt>)>, hs: Seq<u16>) -> bool {
    &&& r.len() <= b.len()
    &&& keys_distinct(r)
    &&& forall|i: int| 0 <= i < r.len() ==> has_source(b, #[trigger] r[i], hs)
    &&& forall|j: int| 0 <= j < b.len() ==> has_start(r, (#[trigger] b[j]).0) || (b[j].1.len() == 1 && cond_goto(b[j].1[0]))
}

proof fn lemma_merge_at_rel(b: Seq<(u16, Seq<SStmt>)>, g: Map<u16, BasicBlock>, hs: Seq<u16>, i: int)
    requires
        0 <= i < b.len(),
        keys_distinct(b),
    ensures
        merge_at(b, g, hs, i) matches Some(r) ==> merged_from(b, r, hs),
{
    let a = b[i].0;
    let ss = b[i].1;
    if let Some(r) = merge_at(b, g, hs, i) {
        if let SKind::Goto(Some(c1), cc1, ft) = ss.last().kind {
            if let Some(f) = first_other(g[a].succs@, ft, 0) {
                let fi = bfind(b, f, 0);
                lemma_bfind(b, f, 0);
                if let SKind::Goto(Some(c2), cc2, t2) = b[fi].1.last().kind {
                    let comp = SExpr::LogicalOr(Box::new(c1), cc1, Box::new(c2), cc2);
                    let ns = ss.update(ss.len() - 1, SStmt { addr: ss.last().addr, kind: SKind::Goto(Some(comp), 5, ft) });
                    let b2 = b.update(i, (a, ns));
                    assert(r == b2.remove(fi));
                    b2.remove_ensures(fi);
                    assert(!hs.contains(a));
                    assert(kept_block(hs, a, ss, ns)) by {
                        assert(ns.last() == ns[ss.len() - 1]);
                        assert(cond_goto(ss.last()));
                    }
                    assert forall|x: int| 0 <= x < r.len() implies has_source(b, #[trigger] r[x], hs) by {
                        let j = if x < fi { x } else { x + 1 };
                        assert(r[x] == b2[j]);
                        if j == i {
                            assert(kept_block(hs, b[j].0, b[j].1, r[x].1));
                        } else {
                            assert(r[x] == b[j]);
                            assert(kept_block(hs, b[j].0, b[j].1, r[x].1));
                        }
                    }
                    assert forall|j: int| 0 <= j < b.len() implies has_start(r, (#[trigger] b[j]).0) || (b[j].1.len() == 1 && cond_goto(b[j].1[0])) by {
                        if j < fi {
                            assert(r[j].0 == b2[j].0);
                            assert(has_start(r, b[j].0));
                        } else if j > fi {
                            assert(r[j - 1].0 == b2[j].0);
                            assert(has_start(r, b[j].0));
                        } else {
                            assert(b[fi].1[0] == b[fi].1.last());
                        }
                    }
                    assert forall|x: int, y: int| 0 <= x < y < r.len() implies #[trigger] r[x].0 != #[trigger] r[y].0 by {
                        let jx = if x < fi { x } else { x + 1 };
                        let jy = if y < fi { y } else { y + 1 };
                        assert(r[x].0 == b[jx].0);
                        assert(r[y].0 == b[jy].0);
                    }
                }
            }
        }
    }
}

proof fn lemma_merge_from_rel(b: Seq<(u16, Seq<SStmt>)>, g: Map<u16, BasicBlock>, hs: Seq<u16>, j: int)
    requires
        keys_distinct(b),
    ensures
        merge_from(b, g, hs, j) matches Some(r) ==> merged_from(b, r, hs),
    decreases b.len() - j,
{
    if 0 <= j < b.len() {
        lemma_merge_at_rel(b, g, hs, j);
        lemma_merge_from_rel(b, g, hs, j + 1);
    }
}

proof fn lemma_kept_trans(hs: Seq<u16>, k: u16, o: Seq<SStmt>, m: Seq<SStmt>, n: Seq<SStmt>)
    requires
        kept_block(hs, k, o, m),
        kept_block(hs, k, m, n),
    ensures
        kept_block(hs, k, o, n),
{
    if !hs.contains(k) {
        assert forall|i: int| 0 <= i < o.len() - 1 implies #[trigger] n[i] == o[i] by {
            assert(n[i] == m[i]);
        }
    }
}

proof fn lemma_merged_trans(b: Seq<(u16, Seq<SStmt>)>, r1: Seq<(u16, Seq<SStmt>)>, r2: Seq<(u16, Seq<SStmt>)>, hs: Seq<u16>)
    requires
        keys_distinct(b),
        merged_from(b, r1, hs),
        merged_from(r1, r2, hs),
    ensures
        merged_from(b, r2, hs),
{
    assert forall|i: int| 0 <= i < r2.len() implies has_source(b, #[trigger] r2[i], hs) by {
        assert(has_source(r1, r2[i], hs));
        let m = choose|m: int| 0 <= m < r1.len() && r1[m].0 == r2[i].0 && #[trigger] kept_block(hs, r1[m].0, r1[m].1, r2[i].1);
        assert(has_source(b, r1[m], hs));
        let j = choose|j: int| 0 <= j < b.len() && b[j].0 == r1[m].0 && #[trigger] kept_block(hs, b[j].0, b[j].1, r1[m].1);
        lemma_kept_trans(hs, b[j].0, b[j].1, r1[m].1, r2[i].1);
        assert(kept_block(hs, b[j].0, b[j].1, r2[i].1));
    }
    assert forall|j: int| 0 <= j < b.len() implies has_start(r2, (#[trigger] b[j]).0) || (b[j].1.len() == 1 && cond_goto(b[j].1[0])) by {
        if has_start(r1, b[j].0) {
            let m = choose|m: int| 0 <= m < r1.len() && #[trigger] r1[m].0 == b[j].0;
            assert(has_start(r2, r1[m].0) || (r1[m].1.len() == 1 && cond_goto(r1[m].1[0])));
            if !has_start(r2, b[j].0) {
                assert(has_source(b, r1[m], hs));
                let j2 = choose|j2: int| 0 <= j2 < b.len() && b[j2].0 == r1[m].0 && #[trigger] kept_block(hs, b[j2].0, b[j2].1, r1[m].1);
                if j2 != j {
                    if j2 < j {
                        assert(b[j2].0 != b[j].0);
                    } else {
                        assert(b[j].0 != b[j2].0);
                    }
                }
                if !hs.contains(b[j].0) {
                    assert(r1[m].1.last() == r1[m].1[0]);
                    assert(b[j].1.last() == b[j].1[0]);
                }
            }
        }
    }
}

/// Merging compound conditions (see `merge_compound_conditions`) drops
/// blocks and changes no other block but in its last statement: where the
/// blocks have distinct starts, each block of the result is a block of the
/// input with the same start and the same length; a loop header's block is
/// unchanged; another block keeps all its statements but the last, which
/// keeps its address and changes only where it was a conditional goto; and
/// each block that is gone held a single conditional goto.
pub proof fn law_merge_compound_conditions(b: Seq<(u16, Seq<SStmt>)>, g: Map<u16, BasicBlock>, hs: Seq<u16>)
    requires
        keys_distinct(b),
    ensures
        merged_from(b, merge_fix(b, g, hs), hs),
    decreases b.len(),
{
    lemma_merge_from_rel(b, g, hs, 0);
    match merge_from(b, g, hs, 0) {
        Some(r) => {
            lemma_merge_from(b, g, hs, 0);
            law_merge_compound_conditions(r, g, hs);
            lemma_merged_trans(b, r, merge_fix(r, g, hs), hs);
        },
        None => {
            lemma_merged_refl(b, hs);
        },
    }
}

proof fn lemma_merged_refl(b: Seq<(u16, Seq<SStmt>)>, hs: Seq<u16>)
    requires
        keys_distinct(b),
    ensures
        merged_from(b, b, hs),
{
    assert forall|i: int| 0 <= i < b.len() implies has_source(b, #[trigger] b[i], hs) by {
        assert(kept_block(hs, b[i].0, b[i].1, b[i].1));
    }
    assert forall|j: int| 0 <= j < b.len() implies has_start(b, (#[trigger] b[j]).0) || (b[j].1.len() == 1 && cond_goto(b[j].1[0])) by {
        assert(b[j].0 == b[j].0);
    }
}

} // verus!
