use vstd::prelude::*;
use crate::addr_map::AddrMap;
use crate::cfg::BasicBlock;
use crate::control_flow::{Conditional, Loop};
use crate::ir::{
    Expr, IRStmt, IRStmtKind, SExpr, SKind, SStmt, blocks_view, expr_view, opt_view, stmt_view, stmts_view,
    lemma_blocks_view, lemma_stmts_view, stmt_regs_ok, stmts_regs_ok, blocks_regs_ok, lemma_stmts_regs_ok,
    lemma_blocks_regs_ok, duplicate_blocks, duplicate_opt, duplicate_stmts,
};
use crate::liveness::{LivenessInfo, reg_bit};
use crate::passes::{subst, substitute_register, lemma_view_remove, lemma_view_update};
use crate::structure::{bfind, lemma_bfind};

verus! {

/// The condition code that holds exactly where `cc` does not.
pub open spec fn flip_cc(cc: u8) -> u8 {
    (!cc) & 7u8
}

/// `e` with the assignments substituted into it, the last one first.
pub open spec fn fold_assigns(e: SExpr, a: Seq<(u8, SExpr)>) -> SExpr
    decreases a.len(),
{
    if a.len() == 0 {
        e
    } else {
        fold_assigns(subst(e, a.last().0, a.last().1), a.drop_last())
    }
}

/// The model of a list of assignments.
pub open spec fn assigns_view(v: Seq<(u8, Expr)>) -> Seq<(u8, SExpr)> {
    Seq::new(v.len(), |i: int| (v[i].0, expr_view(v[i].1)))
}

/// Substitutes the assignments into `expr`, the last one first.
pub fn fold_assignments(expr: Expr, assignments: &Vec<(u8, Expr)>) -> (r: Expr)
    ensures
        r@ == fold_assigns(expr@, assigns_view(assignments@)),
{
    let ghost av = assigns_view(assignments@);
    let ghost target = fold_assigns(expr@, av);
    let mut expr = expr;
    let mut i: usize = assignments.len();
    proof {
        assert(av.subrange(0, i as int) =~= av);
    }
    while i > 0
        invariant
            i <= assignments@.len(),
            av == assigns_view(assignments@),
            fold_assigns(expr@, av.subrange(0, i as int)) == target,
        decreases i,
    {
        proof {
            let x = av.subrange(0, i as int);
            assert(x.drop_last() =~= av.subrange(0, i - 1));
            assert(x.last() == av[i - 1]);
        }
        expr = substitute_register(&expr, assignments[i - 1].0, &assignments[i - 1].1);
        i = i - 1;
    }
    proof {
        assert(av.subrange(0, 0) =~= Seq::<(u8, SExpr)>::empty());
    }
    expr
}

/// The index of the first loop from the `i`th on with header `h`, or -1.
pub open spec fn loop_find(loops: Seq<Loop>, h: u16, i: int) -> int
    decreases loops.len() - i,
{
    if i < 0 || i >= loops.len() {
        -1
    } else if loops[i].header == h {
        i
    } else {
        loop_find(loops, h, i + 1)
    }
}

pub proof fn lemma_loop_find(loops: Seq<Loop>, h: u16, i: int)
    ensures
        loop_find(loops, h, i) >= 0 ==> 0 <= loop_find(loops, h, i) < loops.len() && loops[loop_find(loops, h, i)].header == h,
    decreases loops.len() - i,
{
    if 0 <= i < loops.len() && loops[i].header != h {
        lemma_loop_find(loops, h, i + 1);
    }
}

/// The first loop with header `h`.
fn find_loop(loops: &Vec<Loop>, h: u16) -> (r: Option<usize>)
    ensures
        r matches Some(i) ==> i < loops@.len() && loop_find(loops@, h, 0) == i,
        r is None ==> loop_find(loops@, h, 0) == -1,
{
    let mut i: usize = 0;
    while i < loops.len()
        invariant
            i <= loops@.len(),
            loop_find(loops@, h, 0) == loop_find(loops@, h, i as int),
        decreases loops@.len() - i,
    {
        if loops[i].header == h {
            return Some(i);
        }
        i = i + 1;
    }
    None
}

/// Whether none of the assigned registers is live on entry to the loop's exit
/// block (with no facts on the exit, none counts as live); a loop without an
/// exit does not qualify.
pub open spec fn dead_on_exit(l: Loop, live: Map<u16, LivenessInfo>, pending: Seq<(u8, SExpr)>) -> bool {
    match l.break_block {
        Some(exit) => live.dom().contains(exit) ==> forall|k: int|
            0 <= k < pending.len() ==> #[trigger] (live[exit].live_in & reg_bit(pending[k].0)) == 0,
        None => false,
    }
}

/// The scan of a loop header block for its exit test: assignments are
/// collected until an `if (..) break;` without else; the result is its
/// index and the while condition (the negated test, with the collected
/// assignments substituted where they are dead at the exit), or nothing.
pub open spec fn scan_entry(
    entry: Seq<SStmt>,
    j: int,
    pending: Seq<(u8, SExpr)>,
    h: u16,
    loops: Seq<Loop>,
    live: Map<u16, LivenessInfo>,
) -> Option<(int, Option<SExpr>, u8)>
    decreases entry.len() - j,
{
    if j < 0 || j >= entry.len() {
        None
    } else {
        match entry[j].kind {
            SKind::Assign(r, e) => scan_entry(entry, j + 1, pending.push((r, e)), h, loops, live),
            SKind::If(ic, icc, tb, fb) => if tb.len() == 1 && tb[0].kind is Break && fb is None {
                if pending.len() > 0 {
                    let li = loop_find(loops, h, 0);
                    if li >= 0 && dead_on_exit(loops[li], live, pending) {
                        Some(
                            (
                                j,
                                match ic {
                                    Some(ce) => Some(fold_assigns(ce, pending)),
                                    None => None,
                                },
                                flip_cc(icc),
                            ),
                        )
                    } else {
                        None
                    }
                } else {
                    Some((j, ic, flip_cc(icc)))
                }
            } else {
                None
            },
            _ => None,
        }
    }
}

/// A `DoWhile` whose header block starts with its exit test, as a `While`.
pub open spec fn refine_while(s: SStmt, loops: Seq<Loop>, live: Map<u16, LivenessInfo>) -> SStmt {
    match s.kind {
        SKind::DoWhile(c, cc, body) => {
            let i = bfind(body, s.addr, 0);
            if i >= 0 {
                match scan_entry(body[i].1, 0, Seq::empty(), s.addr, loops, live) {
                    Some((j, nc, ncc)) => SStmt {
                        addr: s.addr,
                        kind: SKind::While(nc, ncc, body.update(i, (s.addr, body[i].1.remove(j)))),
                    },
                    None => s,
                }
            } else {
                s
            }
        },
        _ => s,
    }
}

/// `f` applied to the statement of every block made of one statement.
pub open spec fn pass_while(b: Seq<(u16, Seq<SStmt>)>, loops: Seq<Loop>, live: Map<u16, LivenessInfo>) -> Seq<
    (u16, Seq<SStmt>),
> {
    Seq::new(
        b.len(),
        |k: int|
            if b[k].1.len() == 1 {
                (b[k].0, seq![refine_while(b[k].1[0], loops, live)])
            } else {
                b[k]
            },
    )
}

/// Replaces the statements of the `i`th block, whatever the order of keys.
pub fn put_block(m: &mut AddrMap<Vec<IRStmt>>, i: usize, v: Vec<IRStmt>)
    requires
        i < old(m).entries@.len(),
    ensures
        blocks_view(final(m).entries@) == blocks_view(old(m).entries@).update(
            i as int,
            (old(m).entries@[i as int].0, stmts_view(v@)),
        ),
        final(m).key_seq() == old(m).key_seq(),
        old(m).wf() ==> final(m).wf(),
{
    let ghost e0 = m.entries@;
    let ghost vv = stmts_view(v@);
    let k = m.entries[i].0;
    m.entries.set(i, (k, v));
    proof {
        lemma_blocks_view(e0);
        lemma_blocks_view(m.entries@);
        assert(blocks_view(m.entries@) =~= blocks_view(e0).update(i as int, (e0[i as int].0, vv)));
        assert(m.key_seq() =~= crate::addr_map::keys_of(e0));
        if crate::addr_map::sorted_keys(e0) {
            assert forall|a: int, c: int| 0 <= a < c < m.entries@.len() implies #[trigger] m.entries@[a].0
                < #[trigger] m.entries@[c].0 by {
                assert(e0[a].0 < e0[c].0);
            }
        }
    }
}

/// The index of the first block with address `k`.
pub fn find_block_any(body: &AddrMap<Vec<IRStmt>>, k: u16) -> (r: Option<usize>)
    ensures
        r matches Some(i) ==> i < body.entries@.len() && bfind(blocks_view(body.entries@), k, 0) == i,
        r is None ==> bfind(blocks_view(body.entries@), k, 0) == -1,
{
    let ghost bv = blocks_view(body.entries@);
    proof {
        lemma_blocks_view(body.entries@);
    }
    let mut i: usize = 0;
    while i < body.entries.len()
        invariant
            i <= body.entries@.len(),
            bv == blocks_view(body.entries@),
            bv.len() == body.entries@.len(),
            forall|q: int| 0 <= q < body.entries@.len() ==> #[trigger] bv[q].0 == body.entries@[q].0,
            bfind(bv, k, 0) == bfind(bv, k, i as int),
        decreases body.entries@.len() - i,
    {
        if body.entries[i].0 == k {
            return Some(i);
        }
        i = i + 1;
    }
    None
}

/// Computes `scan_entry` from the start of a header block.
fn scan_entry_block(
    entry: &Vec<IRStmt>,
    h: u16,
    loops: &Vec<Loop>,
    liveness: &AddrMap<LivenessInfo>,
) -> (r: Option<(usize, Option<Expr>, u8)>)
    requires
        liveness.wf(),
        stmts_regs_ok(stmts_view(entry@)),
    ensures
        match r {
            Some((j, c, cc)) => j < entry@.len() && scan_entry(stmts_view(entry@), 0, Seq::empty(), h, loops@, liveness.map())
                == Some((j as int, opt_view(c), cc)),
            None => scan_entry(stmts_view(entry@), 0, Seq::empty(), h, loops@, liveness.map()) is None,
        },
{
    let ghost sv = stmts_view(entry@);
    let ghost live = liveness.map();
    proof {
        lemma_stmts_view(entry@);
        lemma_stmts_regs_ok(sv);
    }
    let mut pending: Vec<(u8, Expr)> = Vec::new();
    let mut j: usize = 0;
    proof {
        assert(assigns_view(pending@) =~= Seq::<(u8, SExpr)>::empty());
    }
    while j < entry.len()
        invariant
            j <= entry@.len(),
            liveness.wf(),
            live == liveness.map(),
            sv == stmts_view(entry@),
            sv.len() == entry@.len(),
            forall|q: int| 0 <= q < entry@.len() ==> #[trigger] sv[q] == stmt_view(entry@[q]),
            forall|q: int| 0 <= q < sv.len() ==> #[trigger] stmt_regs_ok(sv[q]),
            forall|q: int| 0 <= q < pending@.len() ==> #[trigger] pending@[q].0 < 8,
            scan_entry(sv, 0, Seq::empty(), h, loops@, live) == scan_entry(sv, j as int, assigns_view(pending@), h, loops@, live),
        decreases entry@.len() - j,
    {
        proof {
            assert(stmt_regs_ok(sv[j as int]));
        }
        match &entry[j].kind {
            IRStmtKind::Assign(r, e) => {
                let ghost p0 = pending@;
                pending.push((*r, e.duplicate()));
                proof {
                    assert(assigns_view(pending@) =~= assigns_view(p0).push((*r, expr_view(*e))));
                }
            },
            IRStmtKind::If(if_cond, if_cc, true_branch, false_branch) => {
                let is_break = true_branch.len() == 1 && match &true_branch[0].kind {
                    IRStmtKind::Break => true,
                    _ => false,
                };
                proof {
                    lemma_stmts_view(true_branch@);
                }
                if !(is_break && false_branch.is_none()) {
                    return None;
                }
                let new_cc = (!*if_cc) & 7;
                if pending.len() > 0 {
                    match find_loop(loops, h) {
                        Some(li) => {
                            let mut dead_on_exit = true;
                            match loops[li].break_block {
                                Some(exit) => {
                                    match liveness.get(exit) {
                                        Some(live_info) => {
                                            let mut q: usize = 0;
                                            while q < pending.len()
                                                invariant_except_break
                                                    dead_on_exit,
                                                invariant
                                                    q <= pending@.len(),
                                                    forall|t: int| 0 <= t < pending@.len() ==> #[trigger] pending@[t].0 < 8,
                                                    forall|t: int| 0 <= t < q ==> #[trigger] (live_info.live_in & reg_bit(pending@[t].0)) == 0,
                                                ensures
                                                    dead_on_exit ==> forall|t: int| 0 <= t < pending@.len() ==> #[trigger] (live_info.live_in & reg_bit(pending@[t].0)) == 0,
                                                    !dead_on_exit ==> exists|t: int| 0 <= t < pending@.len() && #[trigger] (live_info.live_in & reg_bit(pending@[t].0)) != 0,
                                                decreases pending@.len() - q,
                                            {
                                                if (live_info.live_in & (1u8 << pending[q].0)) != 0 {
                                                    dead_on_exit = false;
                                                    proof {
                                                        assert((live_info.live_in & reg_bit(pending@[q as int].0)) != 0);
                                                    }
                                                    break;
                                                }
                                                q = q + 1;
                                            }
                                            proof {
                                                let pv = assigns_view(pending@);
                                                assert(forall|t: int| 0 <= t < pending@.len() ==> #[trigger] pv[t].0 == pending@[t].0);
                                                if !dead_on_exit {
                                                    let t = choose|t: int| 0 <= t < pending@.len() && #[trigger] (live_info.live_in & reg_bit(pending@[t].0)) != 0;
                                                    assert(pv[t].0 == pending@[t].0);
                                                }
                                            }
                                        },
                                        None => {},
                                    }
                                },
                                None => {
                                    dead_on_exit = false;
                                },
                            }
                            proof {
                                lemma_loop_find(loops@, h, 0);
                                assert(dead_on_exit == crate::refine::dead_on_exit(loops@[li as int], live, assigns_view(pending@)));
                            }
                            if dead_on_exit {
                                let c = match if_cond {
                                    Some(ce) => Some(fold_assignments(ce.duplicate(), &pending)),
                                    None => None,
                                };
                                return Some((j, c, new_cc));
                            } else {
                                return None;
                            }
                        },
                        None => {
                            return None;
                        },
                    }
                } else {
                    return Some((j, duplicate_opt(if_cond), new_cc));
                }
            },
            _ => {
                return None;
            },
        }
        j = j + 1;
    }
    None
}

/// Computes `refine_while`.
fn refine_while_stmt(s: &IRStmt, loops: &Vec<Loop>, liveness: &AddrMap<LivenessInfo>) -> (r: IRStmt)
    requires
        liveness.wf(),
        stmt_regs_ok(s@),
    ensures
        r@ == refine_while(s@, loops@, liveness.map()),
{
    if let IRStmtKind::DoWhile(_c, _cc, body) = &s.kind {
        let ghost bv = blocks_view(body.entries@);
        if let Some(i) = find_block_any(body, s.addr) {
            proof {
                lemma_bfind(bv, s.addr, 0);
                lemma_blocks_view(body.entries@);
                lemma_blocks_regs_ok(bv);
                assert(stmts_regs_ok(bv[i as int].1));
            }
            match scan_entry_block(&body.entries[i].1, s.addr, loops, liveness) {
                Some((j, nc, ncc)) => {
                    let mut nb = duplicate_blocks(body);
                    let mut es = duplicate_stmts(&body.entries[i].1);
                    proof {
                        lemma_stmts_view(es@);
                        lemma_stmts_view(body.entries@[i as int].1@);
                        lemma_view_remove(es@, j as int);
                        lemma_blocks_view(nb.entries@);
                    }
                    es.remove(j);
                    put_block(&mut nb, i, es);
                    return IRStmt { addr: s.addr, kind: IRStmtKind::While(nc, ncc, nb) };
                },
                None => {},
            }
        }
    }
    s.duplicate()
}

/// Computes `pass_while` over all blocks.
fn pass_while_blocks(b: &AddrMap<Vec<IRStmt>>, loops: &Vec<Loop>, liveness: &AddrMap<LivenessInfo>) -> (r: AddrMap<
    Vec<IRStmt>,
>)
    requires
        liveness.wf(),
        blocks_regs_ok(blocks_view(b.entries@)),
    ensures
        blocks_view(r.entries@) == pass_while(blocks_view(b.entries@), loops@, liveness.map()),
        r.key_seq() == b.key_seq(),
        b.wf() ==> r.wf(),
{
    let ghost bv = blocks_view(b.entries@);
    proof {
        lemma_blocks_view(b.entries@);
        lemma_blocks_regs_ok(bv);
    }
    let mut entries: Vec<(u16, Vec<IRStmt>)> = Vec::new();
    let mut i: usize = 0;
    while i < b.entries.len()
        invariant
            i <= b.entries@.len(),
            liveness.wf(),
            bv == blocks_view(b.entries@),
            bv.len() == b.entries@.len(),
            forall|q: int| 0 <= q < b.entries@.len() ==> #[trigger] bv[q] == (b.entries@[q].0, stmts_view(b.entries@[q].1@)),
            forall|q: int| 0 <= q < bv.len() ==> #[trigger] stmts_regs_ok(bv[q].1),
            entries@.len() == i,
            forall|q: int| 0 <= q < i ==> #[trigger] entries@[q].0 == b.entries@[q].0,
            forall|q: int| 0 <= q < i ==> stmts_view(#[trigger] entries@[q].1@) == pass_while(bv, loops@, liveness.map())[q].1,
        decreases b.entries@.len() - i,
    {
        let k = b.entries[i].0;
        let stmts = &b.entries[i].1;
        proof {
            lemma_stmts_view(stmts@);
            assert(stmts_regs_ok(bv[i as int].1));
            lemma_stmts_regs_ok(bv[i as int].1);
        }
        let v = if stmts.len() == 1 {
            proof {
                assert(stmt_regs_ok(bv[i as int].1[0]));
            }
            let ns = refine_while_stmt(&stmts[0], loops, liveness);
            let mut v: Vec<IRStmt> = Vec::new();
            v.push(ns);
            proof {
                assert(v@.drop_last() =~= Seq::<IRStmt>::empty());
                assert(stmts_view(Seq::<IRStmt>::empty()) == Seq::<SStmt>::empty());
                assert(stmts_view(v@) =~= seq![stmt_view(ns)]);
            }
            v
        } else {
            duplicate_stmts(stmts)
        };
        let ghost e0 = entries@;
        entries.push((k, v));
        proof {
            assert forall|q: int| 0 <= q < i + 1 implies stmts_view(#[trigger] entries@[q].1@) == pass_while(bv, loops@, liveness.map())[q].1 by {
                if q < i {
                    assert(entries@[q] == e0[q]);
                }
            }
        }
        i = i + 1;
    }
    let r = AddrMap { entries };
    proof {
        lemma_blocks_view(r.entries@);
        assert(blocks_view(r.entries@) =~= pass_while(bv, loops@, liveness.map()));
        assert(r.key_seq() =~= b.key_seq());
        if b.wf() {
            assert forall|x: int, y: int| 0 <= x < y < r.entries@.len() implies #[trigger] r.entries@[x].0
                < #[trigger] r.entries@[y].0 by {
                assert(b.entries@[x].0 < b.entries@[y].0);
            }
        }
    }
    r
}

/// The extra exit test at the start of a loop block other than the header:
/// `if (c) break;` gives the condition `c` with the negated code.
pub open spec fn extra_of(blk: (u16, Seq<SStmt>), h: u16) -> Option<(SExpr, u8)> {
    if blk.0 != h && blk.1.len() > 0 {
        match blk.1[0].kind {
            SKind::If(Some(ic), icc, tb, None) => if tb.len() == 1 && tb[0].kind is Break {
                Some((ic, flip_cc(icc)))
            } else {
                None
            },
            _ => None,
        }
    } else {
        None
    }
}

/// The extra exit tests of the loop blocks, in block order.
pub open spec fn extras(body: Seq<(u16, Seq<SStmt>)>, h: u16) -> Seq<(SExpr, u8)>
    decreases body.len(),
{
    if body.len() == 0 {
        Seq::empty()
    } else {
        let e = extras(body.drop_last(), h);
        match extra_of(body.last(), h) {
            Some(x) => e.push(x),
            None => e,
        }
    }
}

/// The conjunction of a condition with the extra tests, left to right.
pub open spec fn chain(cur: SExpr, ccur: u8, ex: Seq<(SExpr, u8)>) -> (SExpr, u8)
    decreases ex.len(),
{
    if ex.len() == 0 {
        (cur, ccur)
    } else {
        let (c0, k0) = chain(cur, ccur, ex.drop_last());
        (SExpr::LogicalAnd(Box::new(c0), k0, Box::new(ex.last().0), ex.last().1), 7u8)
    }
}

/// The loop blocks without their extra exit tests.
pub open spec fn strip_extras(body: Seq<(u16, Seq<SStmt>)>, h: u16) -> Seq<(u16, Seq<SStmt>)> {
    Seq::new(
        body.len(),
        |k: int|
            if extra_of(body[k], h) is Some {
                (body[k].0, body[k].1.subrange(1, body[k].1.len() as int))
            } else {
                body[k]
            },
    )
}

/// A `While` whose other blocks start with exit tests, with those tests
/// joined into its condition by `&&` (the tests leave the blocks even where
/// the loop has no condition to join them to).
pub open spec fn refine_compound(s: SStmt) -> SStmt {
    match s.kind {
        SKind::While(c, cc, body) => {
            let ex = extras(body, s.addr);
            if ex.len() == 0 {
                s
            } else {
                let nb = strip_extras(body, s.addr);
                match c {
                    Some(cur) => SStmt { addr: s.addr, kind: SKind::While(Some(chain(cur, cc, ex).0), 7u8, nb) },
                    None => SStmt { addr: s.addr, kind: SKind::While(None, cc, nb) },
                }
            }
        },
        _ => s,
    }
}

/// `refine_compound` of the statement of every block made of one statement.
pub open spec fn pass_compound(b: Seq<(u16, Seq<SStmt>)>) -> Seq<(u16, Seq<SStmt>)> {
    Seq::new(
        b.len(),
        |k: int|
            if b[k].1.len() == 1 {
                (b[k].0, seq![refine_compound(b[k].1[0])])
            } else {
                b[k]
            },
    )
}

/// The model of a list of extra tests.
pub open spec fn extras_view(v: Seq<(Expr, u8)>) -> Seq<(SExpr, u8)> {
    Seq::new(v.len(), |i: int| (expr_view(v[i].0), v[i].1))
}

/// Computes `extra_of` of a block.
fn extra_test(k: u16, stmts: &Vec<IRStmt>, h: u16) -> (r: Option<(Expr, u8)>)
    ensures
        match r {
            Some((e, cc)) => extra_of((k, stmts_view(stmts@)), h) == Some((expr_view(e), cc)),
            None => extra_of((k, stmts_view(stmts@)), h) is None,
        },
{
    proof {
        lemma_stmts_view(stmts@);
    }
    if k == h || stmts.len() == 0 {
        return None;
    }
    if let IRStmtKind::If(Some(ic), icc, tb, None) = &stmts[0].kind {
        proof {
            lemma_stmts_view(tb@);
        }
        if tb.len() == 1 {
            if let IRStmtKind::Break = &tb[0].kind {
                return Some((ic.duplicate(), (!*icc) & 7));
            }
        }
    }
    None
}

/// The statements without the first one.
fn drop_first(v: &Vec<IRStmt>) -> (r: Vec<IRStmt>)
    requires
        v@.len() > 0,
    ensures
        stmts_view(r@) == stmts_view(v@).subrange(1, v@.len() as int),
{
    proof {
        lemma_stmts_view(v@);
    }
    let mut r: Vec<IRStmt> = Vec::new();
    let mut j: usize = 1;
    while j < v.len()
        invariant
            1 <= j <= v@.len(),
            r@.len() == j - 1,
            stmts_view(v@).len() == v@.len(),
            forall|q: int| 0 <= q < v@.len() ==> #[trigger] stmts_view(v@)[q] == stmt_view(v@[q]),
            forall|q: int| 0 <= q < r@.len() ==> #[trigger] stmt_view(r@[q]) == stmt_view(v@[q + 1]),
        decreases v@.len() - j,
    {
        r.push(v[j].duplicate());
        j = j + 1;
    }
    proof {
        lemma_stmts_view(r@);
        assert(stmts_view(r@) =~= stmts_view(v@).subrange(1, v@.len() as int));
    }
    r
}

/// Computes `refine_compound`.
fn refine_compound_stmt(s: &IRStmt) -> (r: IRStmt)
    ensures
        r@ == refine_compound(s@),
{
    if let IRStmtKind::While(cond, cc, body) = &s.kind {
        let h = s.addr;
        let ghost bv = blocks_view(body.entries@);
        proof {
            lemma_blocks_view(body.entries@);
        }
        let mut ex: Vec<(Expr, u8)> = Vec::new();
        let mut flags: Vec<bool> = Vec::new();
        let mut i: usize = 0;
        while i < body.entries.len()
            invariant
                i <= body.entries@.len(),
                bv == blocks_view(body.entries@),
                bv.len() == body.entries@.len(),
                forall|q: int| 0 <= q < body.entries@.len() ==> #[trigger] bv[q] == (body.entries@[q].0, stmts_view(body.entries@[q].1@)),
                flags@.len() == i,
                forall|q: int| 0 <= q < i ==> #[trigger] flags@[q] == (extra_of(bv[q], h) is Some),
                extras_view(ex@) == extras(bv.subrange(0, i as int), h),
            decreases body.entries@.len() - i,
        {
            proof {
                let x = bv.subrange(0, i + 1);
                assert(x.drop_last() =~= bv.subrange(0, i as int));
                assert(x.last() == bv[i as int]);
            }
            let t = extra_test(body.entries[i].0, &body.entries[i].1, h);
            match t {
                Some(x) => {
                    let ghost e0 = ex@;
                    ex.push(x);
                    flags.push(true);
                    proof {
                        assert(extras_view(ex@) =~= extras_view(e0).push((expr_view(x.0), x.1)));
                    }
                },
                None => {
                    flags.push(false);
                },
            }
            i = i + 1;
        }
        proof {
            assert(bv.subrange(0, i as int) =~= bv);
        }
        if ex.len() == 0 {
            return s.duplicate();
        }
        let mut entries: Vec<(u16, Vec<IRStmt>)> = Vec::new();
        let mut k: usize = 0;
        while k < body.entries.len()
            invariant
                k <= body.entries@.len(),
                bv == blocks_view(body.entries@),
                bv.len() == body.entries@.len(),
                forall|q: int| 0 <= q < body.entries@.len() ==> #[trigger] bv[q] == (body.entries@[q].0, stmts_view(body.entries@[q].1@)),
                flags@.len() == body.entries@.len(),
                forall|q: int| 0 <= q < flags@.len() ==> #[trigger] flags@[q] == (extra_of(bv[q], h) is Some),
                entries@.len() == k,
                forall|q: int| 0 <= q < k ==> #[trigger] entries@[q].0 == body.entries@[q].0,
                forall|q: int| 0 <= q < k ==> stmts_view(#[trigger] entries@[q].1@) == strip_extras(bv, h)[q].1,
            decreases body.entries@.len() - k,
        {
            let v = if flags[k] {
                proof {
                    lemma_stmts_view(body.entries@[k as int].1@);
                }
                drop_first(&body.entries[k].1)
            } else {
                duplicate_stmts(&body.entries[k].1)
            };
            let ghost e0 = entries@;
            entries.push((body.entries[k].0, v));
            proof {
                assert forall|q: int| 0 <= q < k + 1 implies stmts_view(#[trigger] entries@[q].1@) == strip_extras(bv, h)[q].1 by {
                    if q < k {
                        assert(entries@[q] == e0[q]);
                    }
                }
            }
            k = k + 1;
        }
        let nb = AddrMap { entries };
        proof {
            lemma_blocks_view(nb.entries@);
            assert(blocks_view(nb.entries@) =~= strip_extras(bv, h));
        }
        match cond {
            Some(cur) => {
                let ghost exs = extras_view(ex@);
                let mut compound = cur.duplicate();
                let mut compound_cc = *cc;
                let mut q: usize = 0;
                while q < ex.len()
                    invariant
                        q <= ex@.len(),
                        exs == extras_view(ex@),
                        (expr_view(compound), compound_cc) == chain(expr_view(*cur), *cc, exs.subrange(0, q as int)),
                    decreases ex@.len() - q,
                {
                    proof {
                        let x = exs.subrange(0, q + 1);
                        assert(x.drop_last() =~= exs.subrange(0, q as int));
                        assert(x.last() == exs[q as int]);
                    }
                    compound = Expr::LogicalAnd(Box::new(compound), compound_cc, Box::new(ex[q].0.duplicate()), ex[q].1);
                    compound_cc = 7;
                    q = q + 1;
                }
                proof {
                    assert(exs.subrange(0, q as int) =~= exs);
                }
                return IRStmt { addr: h, kind: IRStmtKind::While(Some(compound), 7, nb) };
            },
            None => {
                return IRStmt { addr: h, kind: IRStmtKind::While(None, *cc, nb) };
            },
        }
    }
    s.duplicate()
}

/// Computes `pass_compound` over all blocks.
fn pass_compound_blocks(b: &AddrMap<Vec<IRStmt>>) -> (r: AddrMap<Vec<IRStmt>>)
    ensures
        blocks_view(r.entries@) == pass_compound(blocks_view(b.entries@)),
        r.key_seq() == b.key_seq(),
        b.wf() ==> r.wf(),
{
    let ghost bv = blocks_view(b.entries@);
    proof {
        lemma_blocks_view(b.entries@);
    }
    let mut entries: Vec<(u16, Vec<IRStmt>)> = Vec::new();
    let mut i: usize = 0;
    while i < b.entries.len()
        invariant
            i <= b.entries@.len(),
            bv == blocks_view(b.entries@),
            bv.len() == b.entries@.len(),
            forall|q: int| 0 <= q < b.entries@.len() ==> #[trigger] bv[q] == (b.entries@[q].0, stmts_view(b.entries@[q].1@)),
            entries@.len() == i,
            forall|q: int| 0 <= q < i ==> #[trigger] entries@[q].0 == b.entries@[q].0,
            forall|q: int| 0 <= q < i ==> stmts_view(#[trigger] entries@[q].1@) == pass_compound(bv)[q].1,
        decreases b.entries@.len() - i,
    {
        let k = b.entries[i].0;
        let stmts = &b.entries[i].1;
        proof {
            lemma_stmts_view(stmts@);
        }
        let v = if stmts.len() == 1 {
            let ns = refine_compound_stmt(&stmts[0]);
            let mut v: Vec<IRStmt> = Vec::new();
            v.push(ns);
            proof {
                assert(v@.drop_last() =~= Seq::<IRStmt>::empty());
                assert(stmts_view(Seq::<IRStmt>::empty()) == Seq::<SStmt>::empty());
                assert(stmts_view(v@) =~= seq![stmt_view(ns)]);
            }
            v
        } else {
            duplicate_stmts(stmts)
        };
        let ghost e0 = entries@;
        entries.push((k, v));
        proof {
            assert forall|q: int| 0 <= q < i + 1 implies stmts_view(#[trigger] entries@[q].1@) == pass_compound(bv)[q].1 by {
                if q < i {
                    assert(entries@[q] == e0[q]);
                }
            }
        }
        i = i + 1;
    }
    let r = AddrMap { entries };
    proof {
        lemma_blocks_view(r.entries@);
        assert(blocks_view(r.entries@) =~= pass_compound(bv));
        assert(r.key_seq() =~= b.key_seq());
        if b.wf() {
            assert forall|x: int, y: int| 0 <= x < y < r.entries@.len() implies #[trigger] r.entries@[x].0
                < #[trigger] r.entries@[y].0 by {
                assert(b.entries@[x].0 < b.entries@[y].0);
            }
        }
    }
    r
}

/// The register a `While` condition counts with: the left operand of a
/// subtraction, the condition itself, or the right operand of a subtraction.
pub open spec fn loop_var(c: Option<SExpr>) -> Option<u8> {
    match c {
        Some(SExpr::Sub(l, r)) => if *l is Register {
            Some((*l)->Register_0)
        } else if *r is Register {
            Some((*r)->Register_0)
        } else {
            None
        },
        Some(SExpr::Register(r)) => Some(r),
        _ => None,
    }
}

/// The last assignment of `v` in a statement sequence.
pub open spec fn last_assign_in(ss: Seq<SStmt>, v: u8) -> Option<SStmt>
    decreases ss.len(),
{
    if ss.len() == 0 {
        None
    } else if ss.last().kind matches SKind::Assign(r, _) && r == v {
        Some(ss.last())
    } else {
        last_assign_in(ss.drop_last(), v)
    }
}

/// The last assignment of `v` in the block at `p`.
pub open spec fn block_last_assign(b: Seq<(u16, Seq<SStmt>)>, p: u16, v: u8) -> Option<SStmt> {
    let i = bfind(b, p, 0);
    if i >= 0 {
        last_assign_in(b[i].1, v)
    } else {
        None
    }
}

/// The first predecessor of the header, from the `j`th on, outside the loop
/// whose block assigns `v`, with that block's last assignment of `v`.
pub open spec fn find_init(preds: Seq<u16>, j: int, body: Seq<(u16, Seq<SStmt>)>, b: Seq<(u16, Seq<SStmt>)>, v: u8) -> Option<
    (u16, SStmt),
>
    decreases preds.len() - j,
{
    if j < 0 || j >= preds.len() {
        None
    } else if bfind(body, preds[j], 0) < 0 && block_last_assign(b, preds[j], v) is Some {
        Some((preds[j], block_last_assign(b, preds[j], v)->Some_0))
    } else {
        find_init(preds, j + 1, body, b, v)
    }
}

/// Whether a statement ends the flow of its block.
pub open spec fn is_terminator(k: SKind) -> bool {
    k is Continue || k is Goto || k is Break || k is Return || k is Trap
}

/// The increment of `v` at the end of the continue block: its last
/// statement, or the one before a final jump.
pub open spec fn incr_of(cs: Seq<SStmt>, v: u8) -> Option<SStmt> {
    if cs.len() == 0 {
        None
    } else {
        let pot = if is_terminator(cs.last().kind) {
            if cs.len() >= 2 {
                Some(cs[cs.len() - 2])
            } else {
                None
            }
        } else {
            Some(cs.last())
        };
        match pot {
            Some(st) => if st.kind matches SKind::Assign(r, _) && r == v {
                Some(st)
            } else {
                None
            },
            None => None,
        }
    }
}

/// The continue block without its increment, with a final goto to the
/// header as `Continue`.
pub open spec fn fix_cont(cs: Seq<SStmt>, h: u16) -> Seq<SStmt> {
    let c1 = if cs.len() > 0 && is_terminator(cs.last().kind) {
        if cs.len() >= 2 {
            cs.remove(cs.len() - 2)
        } else {
            cs
        }
    } else if cs.len() > 0 {
        cs.drop_last()
    } else {
        cs
    };
    if c1.len() > 0 && (c1.last().kind matches SKind::Goto(_, _, t) && t == h) {
        c1.update(c1.len() - 1, SStmt { addr: c1.last().addr, kind: SKind::Continue })
    } else {
        c1
    }
}

/// The continue block of the loop at `h`, where the body has it.
pub open spec fn cont_of(body: Seq<(u16, Seq<SStmt>)>, loops: Seq<Loop>, h: u16) -> Option<u16> {
    let li = loop_find(loops, h, 0);
    if li >= 0 {
        match loops[li].continue_block {
            Some(ct) => if bfind(body, ct, 0) >= 0 {
                Some(ct)
            } else {
                None
            },
            None => None,
        }
    } else {
        None
    }
}

/// A `While` with a counting register, an initial assignment of it before
/// the loop and an increment at the end of its continue block, as a `For`;
/// also the block and address of the initial assignment, to be removed.
pub open spec fn refine_for(s: SStmt, b: Seq<(u16, Seq<SStmt>)>, g: Map<u16, BasicBlock>, loops: Seq<Loop>) -> (
    SStmt,
    Option<(u16, u16)>,
) {
    match s.kind {
        SKind::While(c, cc, body) => match loop_var(c) {
            Some(v) => {
                let init = if g.dom().contains(s.addr) {
                    find_init(g[s.addr].preds@, 0, body, b, v)
                } else {
                    None
                };
                let cont = cont_of(body, loops, s.addr);
                let incr = match cont {
                    Some(ct) => incr_of(body[bfind(body, ct, 0)].1, v),
                    None => None,
                };
                match (init, incr, cont) {
                    (Some((p, is)), Some(ns), Some(ct)) => {
                        let bi = bfind(body, ct, 0);
                        (
                            SStmt {
                                addr: s.addr,
                                kind: SKind::For(
                                    Box::new(is),
                                    c,
                                    cc,
                                    Box::new(ns),
                                    body.update(bi, (ct, fix_cont(body[bi].1, s.addr))),
                                ),
                            },
                            Some((p, is.addr)),
                        )
                    },
                    _ => (s, None),
                }
            },
            None => (s, None),
        },
        _ => (s, None),
    }
}

/// `refine_for` over the first `n` blocks, with the removals it asks for.
pub open spec fn pass_for(b: Seq<(u16, Seq<SStmt>)>, g: Map<u16, BasicBlock>, loops: Seq<Loop>, n: int) -> (
    Seq<(u16, Seq<SStmt>)>,
    Seq<(u16, u16)>,
)
    decreases n,
{
    if n <= 0 {
        (Seq::empty(), Seq::empty())
    } else {
        let (r, rem) = pass_for(b, g, loops, n - 1);
        let blk = b[n - 1];
        if blk.1.len() == 1 {
            let (ns, x) = refine_for(blk.1[0], b, g, loops);
            (
                r.push((blk.0, seq![ns])),
                match x {
                    Some(y) => rem.push(y),
                    None => rem,
                },
            )
        } else {
            (r.push(blk), rem)
        }
    }
}

/// The index of the first statement from the `j`th on at address `a`, or -1.
pub open spec fn stmt_pos(ss: Seq<SStmt>, a: u16, j: int) -> int
    decreases ss.len() - j,
{
    if j < 0 || j >= ss.len() {
        -1
    } else if ss[j].addr == a {
        j
    } else {
        stmt_pos(ss, a, j + 1)
    }
}

pub proof fn lemma_stmt_pos(ss: Seq<SStmt>, a: u16, j: int)
    ensures
        stmt_pos(ss, a, j) >= 0 ==> 0 <= stmt_pos(ss, a, j) < ss.len() && ss[stmt_pos(ss, a, j)].addr == a,
    decreases ss.len() - j,
{
    if 0 <= j < ss.len() && ss[j].addr != a {
        lemma_stmt_pos(ss, a, j + 1);
    }
}

/// The blocks without the first statement at address `rm.1` of block `rm.0`.
pub open spec fn remove_at(b: Seq<(u16, Seq<SStmt>)>, rm: (u16, u16)) -> Seq<(u16, Seq<SStmt>)> {
    let i = bfind(b, rm.0, 0);
    if i >= 0 {
        let j = stmt_pos(b[i].1, rm.1, 0);
        if j >= 0 {
            b.update(i, (rm.0, b[i].1.remove(j)))
        } else {
            b
        }
    } else {
        b
    }
}

/// The removals applied in order.
pub open spec fn apply_removals(b: Seq<(u16, Seq<SStmt>)>, rems: Seq<(u16, u16)>) -> Seq<(u16, Seq<SStmt>)>
    decreases rems.len(),
{
    if rems.len() == 0 {
        b
    } else {
        remove_at(apply_removals(b, rems.drop_last()), rems.last())
    }
}

/// All three refinements: `DoWhile` to `While`, compound `While`
/// conditions, `While` to `For` with the initial assignments removed.
pub open spec fn refine_all(
    b0: Seq<(u16, Seq<SStmt>)>,
    loops: Seq<Loop>,
    g: Map<u16, BasicBlock>,
    live: Map<u16, LivenessInfo>,
) -> Seq<(u16, Seq<SStmt>)> {
    let b2 = pass_compound(pass_while(b0, loops, live));
    let (b3, rems) = pass_for(b2, g, loops, b2.len() as int);
    apply_removals(b3, rems)
}

/// Computes `loop_var`.
fn loop_var_of(c: &Option<Expr>) -> (r: Option<u8>)
    ensures
        r == loop_var(opt_view(*c)),
{
    match c {
        Some(Expr::Sub(l, r)) => {
            proof {
                assert(opt_view(*c) == Some(SExpr::Sub(Box::new(expr_view(**l)), Box::new(expr_view(**r)))));
            }
            if let Expr::Register(x) = **l {
                proof {
                    assert(expr_view(**l) == SExpr::Register(x));
                }
                return Some(x);
            }
            if let Expr::Register(x) = **r {
                proof {
                    assert(expr_view(**r) == SExpr::Register(x));
                    assert(!(expr_view(**l) is Register));
                }
                return Some(x);
            }
            None
        },
        Some(Expr::Register(x)) => Some(*x),
        _ => None,
    }
}

/// Computes `last_assign_in`.
fn last_assign(v: &Vec<IRStmt>, var: u8) -> (r: Option<IRStmt>)
    ensures
        match r {
            Some(st) => last_assign_in(stmts_view(v@), var) == Some(stmt_view(st)),
            None => last_assign_in(stmts_view(v@), var) is None,
        },
{
    let ghost sv = stmts_view(v@);
    proof {
        lemma_stmts_view(v@);
    }
    let mut j: usize = v.len();
    proof {
        assert(sv.subrange(0, j as int) =~= sv);
    }
    while j > 0
        invariant
            j <= v@.len(),
            sv == stmts_view(v@),
            sv.len() == v@.len(),
            forall|q: int| 0 <= q < v@.len() ==> #[trigger] sv[q] == stmt_view(v@[q]),
            last_assign_in(sv, var) == last_assign_in(sv.subrange(0, j as int), var),
        decreases j,
    {
        proof {
            let x = sv.subrange(0, j as int);
            assert(x.drop_last() =~= sv.subrange(0, j - 1));
            assert(x.last() == sv[j - 1]);
        }
        if let IRStmtKind::Assign(r, _) = &v[j - 1].kind {
            if *r == var {
                return Some(v[j - 1].duplicate());
            }
        }
        j = j - 1;
    }
    None
}

/// Computes `incr_of`.
fn incr_of_block(cs: &Vec<IRStmt>, var: u8) -> (r: Option<IRStmt>)
    ensures
        match r {
            Some(st) => incr_of(stmts_view(cs@), var) == Some(stmt_view(st)),
            None => incr_of(stmts_view(cs@), var) is None,
        },
{
    proof {
        lemma_stmts_view(cs@);
    }
    let n = cs.len();
    if n == 0 {
        return None;
    }
    let term = is_terminator_kind(&cs[n - 1].kind);
    let pot: Option<usize> = if term {
        if n >= 2 {
            Some(n - 2)
        } else {
            None
        }
    } else {
        Some(n - 1)
    };
    match pot {
        Some(i) => {
            if let IRStmtKind::Assign(r, _) = &cs[i].kind {
                if *r == var {
                    return Some(cs[i].duplicate());
                }
            }
            None
        },
        None => None,
    }
}

/// Computes `is_terminator`.
fn is_terminator_kind(k: &IRStmtKind) -> (r: bool)
    ensures
        r == is_terminator(crate::ir::kind_view(*k)),
{
    match k {
        IRStmtKind::Continue => true,
        IRStmtKind::Goto(_, _, _) => true,
        IRStmtKind::Break => true,
        IRStmtKind::Return(_) => true,
        IRStmtKind::Trap(_) => true,
        _ => false,
    }
}

/// Computes `fix_cont`.
fn fix_cont_block(cs: &Vec<IRStmt>, h: u16) -> (r: Vec<IRStmt>)
    ensures
        stmts_view(r@) == fix_cont(stmts_view(cs@), h),
{
    let ghost sv = stmts_view(cs@);
    proof {
        lemma_stmts_view(cs@);
    }
    let mut v = duplicate_stmts(cs);
    proof {
        lemma_stmts_view(v@);
    }
    let ghost v0 = v@;
    let n = v.len();
    let term = n > 0 && is_terminator_kind(&v[n - 1].kind);
    if term {
        if n >= 2 {
            proof {
                lemma_view_remove(v@, n - 2);
            }
            v.remove(n - 2);
        }
    } else if n > 0 {
        v.pop();
        proof {
            assert(v@ =~= v0.drop_last());
        }
    }
    let ghost c1 = stmts_view(v@);
    proof {
        lemma_stmts_view(v@);
    }
    let m = v.len();
    if m > 0 {
        let is_back = match &v[m - 1].kind {
            IRStmtKind::Goto(_, _, t) => *t == h,
            _ => false,
        };
        if is_back {
            let a = v[m - 1].addr;
            let st = IRStmt { addr: a, kind: IRStmtKind::Continue };
            proof {
                lemma_view_update(v@, m - 1, st);
            }
            v.set(m - 1, st);
        }
    }
    v
}

/// Computes `refine_for`.
fn refine_for_stmt(s: &IRStmt, b: &AddrMap<Vec<IRStmt>>, blocks: &AddrMap<BasicBlock>, loops: &Vec<Loop>) -> (r: (
    IRStmt,
    Option<(u16, u16)>,
))
    requires
        blocks.wf(),
    ensures
        (r.0@, r.1) == refine_for(s@, blocks_view(b.entries@), blocks.map(), loops@),
{
    if let IRStmtKind::While(cond, cc, body) = &s.kind {
        let h = s.addr;
        let ghost bodyv = blocks_view(body.entries@);
        let ghost bv = blocks_view(b.entries@);
        if let Some(var) = loop_var_of(cond) {
            let mut init: Option<(u16, IRStmt)> = None;
            if let Some(block) = blocks.get(h) {
                let preds = &block.preds;
                let mut j: usize = 0;
                while j < preds.len()
                    invariant_except_break
                        init is None,
                    invariant
                        j <= preds@.len(),
                        bodyv == blocks_view(body.entries@),
                        bv == blocks_view(b.entries@),
                        find_init(preds@, 0, bodyv, bv, var) == find_init(preds@, j as int, bodyv, bv, var),
                    ensures
                        match init {
                            Some((p, st)) => find_init(preds@, 0, bodyv, bv, var) == Some((p, stmt_view(st))),
                            None => find_init(preds@, 0, bodyv, bv, var) is None,
                        },
                    decreases preds@.len() - j,
                {
                    let p = preds[j];
                    if find_block_any(body, p).is_none() {
                        if let Some(bi) = find_block_any(b, p) {
                            proof {
                                lemma_bfind(bv, p, 0);
                                lemma_blocks_view(b.entries@);
                            }
                            if let Some(st) = last_assign(&b.entries[bi].1, var) {
                                init = Some((p, st));
                                break;
                            }
                        }
                    }
                    j = j + 1;
                }
            }
            let cont: Option<(u16, usize)> = match find_loop(loops, h) {
                Some(li) => match loops[li].continue_block {
                    Some(ct) => match find_block_any(body, ct) {
                        Some(bi) => Some((ct, bi)),
                        None => None,
                    },
                    None => None,
                },
                None => None,
            };
            proof {
                lemma_loop_find(loops@, h, 0);
            }
            if let Some((ct, bi)) = cont {
                proof {
                    lemma_bfind(bodyv, ct, 0);
                    lemma_blocks_view(body.entries@);
                }
                let incr = incr_of_block(&body.entries[bi].1, var);
                if let (Some((p, is)), Some(ns)) = (init, incr) {
                    let fixed = fix_cont_block(&body.entries[bi].1, h);
                    let mut nb = duplicate_blocks(body);
                    proof {
                        assert(nb.key_seq().len() == nb.entries@.len());
                        assert(body.key_seq().len() == body.entries@.len());
                        assert(nb.key_seq()[bi as int] == nb.entries@[bi as int].0);
                        assert(body.key_seq()[bi as int] == body.entries@[bi as int].0);
                    }
                    put_block(&mut nb, bi, fixed);
                    let init_addr = is.addr;
                    let st = IRStmt {
                        addr: h,
                        kind: IRStmtKind::For(Box::new(is), duplicate_opt(cond), *cc, Box::new(ns), nb),
                    };
                    return (st, Some((p, init_addr)));
                }
            }
        }
    }
    (s.duplicate(), None)
}

/// Computes `pass_for` over all blocks.
fn pass_for_blocks(b: &AddrMap<Vec<IRStmt>>, blocks: &AddrMap<BasicBlock>, loops: &Vec<Loop>) -> (r: (
    AddrMap<Vec<IRStmt>>,
    Vec<(u16, u16)>,
))
    requires
        blocks.wf(),
    ensures
        (blocks_view(r.0.entries@), r.1@) == pass_for(
            blocks_view(b.entries@),
            blocks.map(),
            loops@,
            blocks_view(b.entries@).len() as int,
        ),
        r.0.key_seq() == b.key_seq(),
        b.wf() ==> r.0.wf(),
{
    let ghost bv = blocks_view(b.entries@);
    proof {
        lemma_blocks_view(b.entries@);
    }
    let mut entries: Vec<(u16, Vec<IRStmt>)> = Vec::new();
    let mut rems: Vec<(u16, u16)> = Vec::new();
    let mut i: usize = 0;
    while i < b.entries.len()
        invariant
            i <= b.entries@.len(),
            blocks.wf(),
            bv == blocks_view(b.entries@),
            bv.len() == b.entries@.len(),
            forall|q: int| 0 <= q < b.entries@.len() ==> #[trigger] bv[q] == (b.entries@[q].0, stmts_view(b.entries@[q].1@)),
            entries@.len() == i,
            forall|q: int| 0 <= q < i ==> #[trigger] entries@[q].0 == b.entries@[q].0,
            (blocks_view(entries@), rems@) == pass_for(bv, blocks.map(), loops@, i as int),
        decreases b.entries@.len() - i,
    {
        let k = b.entries[i].0;
        let stmts = &b.entries[i].1;
        proof {
            lemma_stmts_view(stmts@);
        }
        let ghost e0 = entries@;
        if stmts.len() == 1 {
            let (ns, x) = refine_for_stmt(&stmts[0], b, blocks, loops);
            let mut v: Vec<IRStmt> = Vec::new();
            v.push(ns);
            proof {
                assert(v@.drop_last() =~= Seq::<IRStmt>::empty());
                assert(stmts_view(Seq::<IRStmt>::empty()) == Seq::<SStmt>::empty());
                assert(stmts_view(v@) =~= seq![stmt_view(ns)]);
            }
            entries.push((k, v));
            match x {
                Some(y) => {
                    rems.push(y);
                },
                None => {},
            }
        } else {
            entries.push((k, duplicate_stmts(stmts)));
        }
        proof {
            assert(entries@.drop_last() =~= e0);
        }
        i = i + 1;
    }
    let r = AddrMap { entries };
    proof {
        lemma_blocks_view(r.entries@);
        assert(r.key_seq() =~= b.key_seq());
        if b.wf() {
            assert forall|x: int, y: int| 0 <= x < y < r.entries@.len() implies #[trigger] r.entries@[x].0
                < #[trigger] r.entries@[y].0 by {
                assert(b.entries@[x].0 < b.entries@[y].0);
            }
        }
    }
    (r, rems)
}

/// Computes `remove_at`.
fn remove_stmt_at(m: &mut AddrMap<Vec<IRStmt>>, rm: (u16, u16))
    ensures
        blocks_view(final(m).entries@) == remove_at(blocks_view(old(m).entries@), rm),
        final(m).key_seq() == old(m).key_seq(),
        old(m).wf() ==> final(m).wf(),
{
    let ghost bv = blocks_view(m.entries@);
    match find_block_any(m, rm.0) {
        Some(i) => {
            proof {
                lemma_bfind(bv, rm.0, 0);
                lemma_blocks_view(m.entries@);
            }
            let ghost sv = stmts_view(m.entries@[i as int].1@);
            let mut v = duplicate_stmts(&m.entries[i].1);
            proof {
                lemma_stmts_view(v@);
            }
            let mut j: usize = 0;
            let mut pos: Option<usize> = None;
            while j < v.len()
                invariant_except_break
                    pos is None,
                invariant
                    j <= v@.len(),
                    sv == stmts_view(v@),
                    sv.len() == v@.len(),
                    forall|q: int| 0 <= q < v@.len() ==> #[trigger] sv[q] == stmt_view(v@[q]),
                    stmt_pos(sv, rm.1, 0) == stmt_pos(sv, rm.1, j as int),
                ensures
                    match pos {
                        Some(p) => p < v@.len() && stmt_pos(sv, rm.1, 0) == p,
                        None => stmt_pos(sv, rm.1, 0) == -1,
                    },
                decreases v@.len() - j,
            {
                if v[j].addr == rm.1 {
                    pos = Some(j);
                    break;
                }
                j = j + 1;
            }
            if let Some(p) = pos {
                proof {
                    lemma_view_remove(v@, p as int);
                }
                v.remove(p);
                put_block(m, i, v);
            }
        },
        None => {},
    }
}

/// Turns `DoWhile` loops that test at the top into `While` loops, joins
/// extra exit tests into compound conditions, and turns counting `While`
/// loops into `For` loops (see `refine_all`).
pub fn refine_loops(
    goto_blocks: &mut AddrMap<Vec<IRStmt>>,
    identified_loops: &Vec<Loop>,
    blocks: &AddrMap<BasicBlock>,
    _conditionals: &Vec<Conditional>,
    liveness: &AddrMap<LivenessInfo>,
)
    requires
        blocks.wf(),
        liveness.wf(),
        blocks_regs_ok(blocks_view(old(goto_blocks).entries@)),
    ensures
        blocks_view(final(goto_blocks).entries@) == refine_all(
            blocks_view(old(goto_blocks).entries@),
            identified_loops@,
            blocks.map(),
            liveness.map(),
        ),
        final(goto_blocks).key_seq() == old(goto_blocks).key_seq(),
        old(goto_blocks).wf() ==> final(goto_blocks).wf(),
        refined_blocks(blocks_view(old(goto_blocks).entries@), blocks_view(final(goto_blocks).entries@)),
{
    proof {
        law_refine_loops(blocks_view(goto_blocks.entries@), identified_loops@, blocks.map(), liveness.map());
    }
    let b1 = pass_while_blocks(goto_blocks, identified_loops, liveness);
    let b2 = pass_compound_blocks(&b1);
    let (b3, rems) = pass_for_blocks(&b2, blocks, identified_loops);
    let ghost b3v = blocks_view(b3.entries@);
    let mut out = b3;
    let mut i: usize = 0;
    while i < rems.len()
        invariant
            i <= rems@.len(),
            blocks_view(out.entries@) == apply_removals(b3v, rems@.subrange(0, i as int)),
            out.key_seq() == old(goto_blocks).key_seq(),
            old(goto_blocks).wf() ==> out.wf(),
        decreases rems@.len() - i,
    {
        proof {
            let x = rems@.subrange(0, i + 1);
            assert(x.drop_last() =~= rems@.subrange(0, i as int));
            assert(x.last() == rems@[i as int]);
        }
        remove_stmt_at(&mut out, rems[i]);
        i = i + 1;
    }
    proof {
        assert(rems@.subrange(0, i as int) =~= rems@);
    }
    *goto_blocks = out;
}

/// How refining may change a statement: it keeps its address, and it stays
/// as it is or a `DoWhile` or `While` becomes a `While` or a `For`.
pub open spec fn refined_stmt(o: SStmt, n: SStmt) -> bool {
    n.addr == o.addr && (n == o || ((o.kind is DoWhile || o.kind is While) && (n.kind is While || n.kind is For)))
}

/// Whether some statement of `o` from the `j`th on refines to `x`.
pub open spec fn refined_from(o: Seq<SStmt>, j: int, x: SStmt) -> bool {
    exists|k: int| j <= k < o.len() && #[trigger] refined_stmt(o[k], x)
}

/// How refining may change a block: it gains no statement, and each of its
/// statements refines one of the old block at the same position or later.
pub open spec fn refined_block(o: Seq<SStmt>, n: Seq<SStmt>) -> bool {
    n.len() <= o.len() && forall|j: int| 0 <= j < n.len() ==> refined_from(o, j, #[trigger] n[j])
}

/// Whether `r` is `b` with its blocks refined, in the same order.
pub open spec fn refined_blocks(b: Seq<(u16, Seq<SStmt>)>, r: Seq<(u16, Seq<SStmt>)>) -> bool {
    r.len() == b.len() && forall|i: int| 0 <= i < b.len() ==> (#[trigger] r[i]).0 == b[i].0 && refined_block(b[i].1, r[i].1)
}

proof fn lemma_refined_block_same(o: Seq<SStmt>)
    ensures
        refined_block(o, o),
{
    assert forall|j: int| 0 <= j < o.len() implies refined_from(o, j, #[trigger] o[j]) by {
        assert(refined_stmt(o[j], o[j]));
    }
}

proof fn lemma_refined_block_single(s: SStmt, n: SStmt)
    requires
        refined_stmt(s, n),
    ensures
        refined_block(seq![s], seq![n]),
{
    assert(seq![n][0] == n);
    assert(refined_stmt(seq![s][0], n));
    assert(refined_from(seq![s], 0, seq![n][0]));
}

proof fn lemma_refined_trans(b1: Seq<(u16, Seq<SStmt>)>, b2: Seq<(u16, Seq<SStmt>)>, b3: Seq<(u16, Seq<SStmt>)>)
    requires
        refined_blocks(b1, b2),
        refined_blocks(b2, b3),
    ensures
        refined_blocks(b1, b3),
{
    assert forall|i: int| 0 <= i < b1.len() implies (#[trigger] b3[i]).0 == b1[i].0 && refined_block(b1[i].1, b3[i].1) by {
        assert(b2[i].0 == b1[i].0);
        let o = b1[i].1;
        let m = b2[i].1;
        let n = b3[i].1;
        assert(refined_block(o, m));
        assert(refined_block(m, n));
        assert forall|j: int| 0 <= j < n.len() implies refined_from(o, j, #[trigger] n[j]) by {
            assert(refined_from(m, j, n[j]));
            let k = choose|k: int| j <= k < m.len() && #[trigger] refined_stmt(m[k], n[j]);
            assert(refined_from(o, k, m[k]));
            let q = choose|q: int| k <= q < o.len() && #[trigger] refined_stmt(o[q], m[k]);
            assert(refined_stmt(o[q], n[j]));
        }
    }
}

proof fn lemma_pass_while_refined(b: Seq<(u16, Seq<SStmt>)>, loops: Seq<Loop>, live: Map<u16, LivenessInfo>)
    ensures
        refined_blocks(b, pass_while(b, loops, live)),
{
    let r = pass_while(b, loops, live);
    assert forall|i: int| 0 <= i < b.len() implies (#[trigger] r[i]).0 == b[i].0 && refined_block(b[i].1, r[i].1) by {
        if b[i].1.len() == 1 {
            let s = b[i].1[0];
            assert(refined_stmt(s, refine_while(s, loops, live)));
            lemma_refined_block_single(s, refine_while(s, loops, live));
            assert(b[i].1 == seq![s]);
        } else {
            lemma_refined_block_same(b[i].1);
        }
    }
}

proof fn lemma_pass_compound_refined(b: Seq<(u16, Seq<SStmt>)>)
    ensures
        refined_blocks(b, pass_compound(b)),
{
    let r = pass_compound(b);
    assert forall|i: int| 0 <= i < b.len() implies (#[trigger] r[i]).0 == b[i].0 && refined_block(b[i].1, r[i].1) by {
        if b[i].1.len() == 1 {
            let s = b[i].1[0];
            assert(refined_stmt(s, refine_compound(s)));
            lemma_refined_block_single(s, refine_compound(s));
            assert(b[i].1 == seq![s]);
        } else {
            lemma_refined_block_same(b[i].1);
        }
    }
}

proof fn lemma_pass_for_refined(b: Seq<(u16, Seq<SStmt>)>, g: Map<u16, BasicBlock>, loops: Seq<Loop>, n: int)
    requires
        0 <= n <= b.len(),
    ensures
        pass_for(b, g, loops, n).0.len() == n,
        forall|i: int| 0 <= i < n ==> (#[trigger] pass_for(b, g, loops, n).0[i]).0 == b[i].0 && refined_block(b[i].1, pass_for(b, g, loops, n).0[i].1),
    decreases n,
{
    if n > 0 {
        lemma_pass_for_refined(b, g, loops, n - 1);
        let (r, rem) = pass_for(b, g, loops, n - 1);
        let blk = b[n - 1];
        let t = pass_for(b, g, loops, n).0;
        assert forall|i: int| 0 <= i < n implies (#[trigger] t[i]).0 == b[i].0 && refined_block(b[i].1, t[i].1) by {
            if i < n - 1 {
                assert(t[i] == r[i]);
            } else if blk.1.len() == 1 {
                let s = blk.1[0];
                let ns = refine_for(s, b, g, loops).0;
                assert(refined_stmt(s, ns));
                lemma_refined_block_single(s, ns);
                assert(blk.1 == seq![s]);
            } else {
                lemma_refined_block_same(blk.1);
            }
        }
    }
}

proof fn lemma_remove_at_refined(b: Seq<(u16, Seq<SStmt>)>, rm: (u16, u16))
    ensures
        refined_blocks(b, remove_at(b, rm)),
{
    let r = remove_at(b, rm);
    lemma_bfind(b, rm.0, 0);
    let i0 = bfind(b, rm.0, 0);
    assert forall|i: int| 0 <= i < b.len() implies (#[trigger] r[i]).0 == b[i].0 && refined_block(b[i].1, r[i].1) by {
        if i0 >= 0 && i == i0 && stmt_pos(b[i].1, rm.1, 0) >= 0 {
            lemma_stmt_pos(b[i].1, rm.1, 0);
            let o = b[i].1;
            let jr = stmt_pos(o, rm.1, 0);
            o.remove_ensures(jr);
            let n = o.remove(jr);
            assert(r[i] == (rm.0, n));
            assert forall|j: int| 0 <= j < n.len() implies refined_from(o, j, #[trigger] n[j]) by {
                if j < jr {
                    assert(refined_stmt(o[j], n[j]));
                } else {
                    assert(n[j] == o[j + 1]);
                    assert(refined_stmt(o[j + 1], n[j]));
                }
            }
        } else {
            lemma_refined_block_same(b[i].1);
        }
    }
}

proof fn lemma_apply_removals_refined(b: Seq<(u16, Seq<SStmt>)>, rems: Seq<(u16, u16)>)
    ensures
        refined_blocks(b, apply_removals(b, rems)),
    decreases rems.len(),
{
    if rems.len() == 0 {
        assert forall|i: int| 0 <= i < b.len() implies (#[trigger] b[i]).0 == b[i].0 && refined_block(b[i].1, b[i].1) by {
            lemma_refined_block_same(b[i].1);
        }
    } else {
        lemma_apply_removals_refined(b, rems.drop_last());
        let m = apply_removals(b, rems.drop_last());
        lemma_remove_at_refined(m, rems.last());
        lemma_refined_trans(b, m, apply_removals(b, rems));
    }
}

/// Refining loops (see `refine_loops`) keeps the blocks and their order and
/// gives no block a statement more: each statement of a refined block keeps
/// the address of a statement of the old block, at its position or later,
/// and is that statement, or a `While` or `For` made of a `DoWhile` or a
/// `While`.
pub proof fn law_refine_loops(b0: Seq<(u16, Seq<SStmt>)>, loops: Seq<Loop>, g: Map<u16, BasicBlock>, live: Map<u16, LivenessInfo>)
    ensures
        refined_blocks(b0, refine_all(b0, loops, g, live)),
{
    let b1 = pass_while(b0, loops, live);
    let b2 = pass_compound(b1);
    lemma_pass_while_refined(b0, loops, live);
    lemma_pass_compound_refined(b1);
    lemma_refined_trans(b0, b1, b2);
    lemma_pass_for_refined(b2, g, loops, b2.len() as int);
    let (b3, rems) = pass_for(b2, g, loops, b2.len() as int);
    assert(refined_blocks(b2, b3));
    lemma_refined_trans(b0, b2, b3);
    lemma_apply_removals_refined(b3, rems);
    lemma_refined_trans(b0, b3, apply_removals(b3, rems));
}

} // verus!
