use vstd::prelude::*;
use crate::addr_map::{AddrMap, ins_seq, ins_pos, lemma_ins_seq, lemma_seq_map_at, seq_has, seq_map, sorted_keys};
use crate::cfg::{BasicBlock, has_addr};
use crate::control_flow::{Conditional, Loop};
use crate::ir::{
    Expr, IRStmt, IRStmtKind, SExpr, SKind, SStmt, blocks_view, expr_view, exprs_view, opt_view, stmt_view,
    stmts_view, lemma_blocks_view, lemma_exprs_view, lemma_stmts_view, duplicate_opt, duplicate_stmts,
};

verus! {

/// Whether two expressions are the same.
pub fn expr_eq(a: &Expr, b: &Expr) -> (r: bool)
    ensures
        r == (a@ == b@),
    decreases a,
{
    match (a, b) {
        (Expr::Register(x), Expr::Register(y)) => *x == *y,
        (Expr::Immediate(x), Expr::Immediate(y)) => *x == *y,
        (Expr::Param(x), Expr::Param(y)) => *x == *y,
        (Expr::Add(a1, b1), Expr::Add(a2, b2)) => expr_eq(a1, a2) && expr_eq(b1, b2),
        (Expr::Sub(a1, b1), Expr::Sub(a2, b2)) => expr_eq(a1, a2) && expr_eq(b1, b2),
        (Expr::And(a1, b1), Expr::And(a2, b2)) => expr_eq(a1, a2) && expr_eq(b1, b2),
        (Expr::Not(a1), Expr::Not(a2)) => expr_eq(a1, a2),
        (Expr::Neg(a1), Expr::Neg(a2)) => expr_eq(a1, a2),
        (Expr::Load(a1), Expr::Load(a2)) => expr_eq(a1, a2),
        (Expr::Call(t1, args1), Expr::Call(t2, args2)) => expr_eq(t1, t2) && exprs_eq(args1, args2),
        (Expr::LogicalAnd(a1, c1, b1, d1), Expr::LogicalAnd(a2, c2, b2, d2)) => *c1 == *c2 && *d1 == *d2 && expr_eq(a1, a2)
            && expr_eq(b1, b2),
        (Expr::LogicalOr(a1, c1, b1, d1), Expr::LogicalOr(a2, c2, b2, d2)) => *c1 == *c2 && *d1 == *d2 && expr_eq(a1, a2)
            && expr_eq(b1, b2),
        _ => false,
    }
}

/// Whether two vectors of expressions are the same.
fn exprs_eq(a: &Vec<Expr>, b: &Vec<Expr>) -> (r: bool)
    ensures
        r == (exprs_view(a@) == exprs_view(b@)),
    decreases a,
{
    proof {
        lemma_exprs_view(a@);
        lemma_exprs_view(b@);
    }
    if a.len() != b.len() {
        return false;
    }
    let mut i: usize = 0;
    while i < a.len()
        invariant
            i <= a@.len(),
            a@.len() == b@.len(),
            exprs_view(a@).len() == a@.len(),
            exprs_view(b@).len() == b@.len(),
            forall|q: int| 0 <= q < a@.len() ==> #[trigger] exprs_view(a@)[q] == expr_view(a@[q]),
            forall|q: int| 0 <= q < b@.len() ==> #[trigger] exprs_view(b@)[q] == expr_view(b@[q]),
            forall|q: int| 0 <= q < i ==> #[trigger] expr_view(a@[q]) == expr_view(b@[q]),
        decreases a@.len() - i,
    {
        proof {
            assert(decreases_to!(a => a[i as int]));
        }
        if !expr_eq(&a[i], &b[i]) {
            proof {
                assert(exprs_view(a@)[i as int] != exprs_view(b@)[i as int]);
            }
            return false;
        }
        i = i + 1;
    }
    proof {
        assert(exprs_view(a@) =~= exprs_view(b@));
    }
    true
}

/// Whether two optional expressions are the same.
fn opt_eq(a: &Option<Expr>, b: &Option<Expr>) -> (r: bool)
    ensures
        r == (opt_view(*a) == opt_view(*b)),
{
    match (a, b) {
        (Some(x), Some(y)) => expr_eq(x, y),
        (None, None) => true,
        _ => false,
    }
}

/// The blocks outside and inside a loop, each in order.
pub open spec fn split_blocks(b: Seq<(u16, Seq<SStmt>)>, ls: Seq<u16>) -> (Seq<(u16, Seq<SStmt>)>, Seq<(u16, Seq<SStmt>)>)
    decreases b.len(),
{
    if b.len() == 0 {
        (Seq::empty(), Seq::empty())
    } else {
        let (r, l) = split_blocks(b.drop_last(), ls);
        if ls.contains(b.last().0) {
            (r, l.push(b.last()))
        } else {
            (r.push(b.last()), l)
        }
    }
}

/// The loop condition after one more statement of the search: a goto with
/// an expression to the exit gives the negation of its condition, one to the
/// header gives its condition.
pub open spec fn cond_upd(c: (Option<SExpr>, u8), s: SStmt, brk: u16, header: u16) -> (Option<SExpr>, u8) {
    match s.kind {
        SKind::Goto(Some(e), cc, t) => if t == brk {
            (Some(e), (!cc) & 7u8)
        } else if t == header {
            (Some(e), cc)
        } else {
            c
        },
        _ => c,
    }
}

/// The loop condition after the search over a statement sequence.
pub open spec fn cond_in_stmts(c: (Option<SExpr>, u8), s: Seq<SStmt>, brk: u16, header: u16) -> (Option<SExpr>, u8)
    decreases s.len(),
{
    if s.len() == 0 {
        c
    } else {
        cond_upd(cond_in_stmts(c, s.drop_last(), brk, header), s.last(), brk, header)
    }
}

/// The loop condition after the search over the loop's blocks.
pub open spec fn cond_in_blocks(c: (Option<SExpr>, u8), b: Seq<(u16, Seq<SStmt>)>, brk: u16, header: u16) -> (
    Option<SExpr>,
    u8,
)
    decreases b.len(),
{
    if b.len() == 0 {
        c
    } else {
        cond_in_stmts(cond_in_blocks(c, b.drop_last(), brk, header), b.last().1, brk, header)
    }
}

/// The condition of a loop and its condition code: found from the gotos of
/// its body where it has an exit block, none (with code 0) otherwise.
pub open spec fn loop_condition(body: Seq<(u16, Seq<SStmt>)>, brk: Option<u16>, header: u16) -> (Option<SExpr>, u8) {
    match brk {
        Some(b) => cond_in_blocks((None, 0u8), body, b, header),
        None => (None, 0u8),
    }
}

/// Whether a statement is the back edge to `header` that the loop condition
/// describes.
pub open spec fn is_back_edge(s: SStmt, header: u16, cond: (Option<SExpr>, u8)) -> bool {
    s.kind matches SKind::Goto(e, cc, t) && t == header && cc == cond.1 && e == cond.0
}

/// The statements that are not such a back edge.
pub open spec fn drop_back_edges(s: Seq<SStmt>, header: u16, cond: (Option<SExpr>, u8)) -> Seq<SStmt>
    decreases s.len(),
{
    if s.len() == 0 {
        Seq::empty()
    } else {
        let r = drop_back_edges(s.drop_last(), header, cond);
        if is_back_edge(s.last(), header, cond) {
            r
        } else {
            r.push(s.last())
        }
    }
}

/// The index of the first block from the `i`th on with address `k`, or -1.
pub open spec fn bfind(b: Seq<(u16, Seq<SStmt>)>, k: u16, i: int) -> int
    decreases b.len() - i,
{
    if i < 0 || i >= b.len() {
        -1
    } else if b[i].0 == k {
        i
    } else {
        bfind(b, k, i + 1)
    }
}

pub proof fn lemma_bfind(b: Seq<(u16, Seq<SStmt>)>, k: u16, i: int)
    ensures
        bfind(b, k, i) >= 0 ==> 0 <= bfind(b, k, i) < b.len() && b[bfind(b, k, i)].0 == k,
    decreases b.len() - i,
{
    if 0 <= i < b.len() && b[i].0 != k {
        lemma_bfind(b, k, i + 1);
    }
}

/// The blocks with the back edges of the first block at `k` (if any) removed.
pub open spec fn drop_back_edges_at(b: Seq<(u16, Seq<SStmt>)>, k: u16, header: u16, cond: (Option<SExpr>, u8)) -> Seq<
    (u16, Seq<SStmt>),
> {
    let i = bfind(b, k, 0);
    if i >= 0 {
        b.update(i, (k, drop_back_edges(b[i].1, header, cond)))
    } else {
        b
    }
}

/// The blocks with the trailing `Continue` of the first block at `k` (if
/// any) removed.
pub open spec fn drop_trailing_continue_at(b: Seq<(u16, Seq<SStmt>)>, k: u16) -> Seq<(u16, Seq<SStmt>)> {
    let i = bfind(b, k, 0);
    if i >= 0 {
        b.update(i, (k, drop_trailing_continue(b[i].1)))
    } else {
        b
    }
}

/// A goto to the exit or to the header of the loop, outside a conditional's
/// branching block, as a `Break` or `Continue` (under an `If` where the goto
/// is conditional).
pub open spec fn to_break_continue(s: SStmt, brk: Option<u16>, header: u16, in_cond_block: bool) -> SStmt {
    match s.kind {
        SKind::Goto(e, cc, t) => if (brk == Some(t) || t == header) && !in_cond_block {
            let nk = if brk == Some(t) { SKind::Break } else { SKind::Continue };
            if cc == 7 {
                SStmt { addr: s.addr, kind: nk }
            } else {
                SStmt { addr: s.addr, kind: SKind::If(e, cc, seq![SStmt { addr: s.addr, kind: nk }], None) }
            }
        } else {
            s
        },
        _ => s,
    }
}

/// Whether a conditional branches at block `k`.
pub open spec fn is_cond_block(conds: Seq<Conditional>, k: u16) -> bool {
    exists|i: int| 0 <= i < conds.len() && #[trigger] conds[i].condition_block == k
}

/// `to_break_continue` on every statement of every block.
pub open spec fn break_continue_blocks(b: Seq<(u16, Seq<SStmt>)>, brk: Option<u16>, header: u16, conds: Seq<Conditional>) -> Seq<
    (u16, Seq<SStmt>),
> {
    Seq::new(
        b.len(),
        |i: int|
            (
                b[i].0,
                Seq::new(b[i].1.len(), |j: int| to_break_continue(b[i].1[j], brk, header, is_cond_block(conds, b[i].0))),
            ),
    )
}

/// The statements without a trailing `Continue`.
pub open spec fn drop_trailing_continue(s: Seq<SStmt>) -> Seq<SStmt> {
    if s.len() > 0 && s.last().kind is Continue {
        s.drop_last()
    } else {
        s
    }
}

/// The body of a structured loop.
pub open spec fn loop_body(b: Seq<(u16, Seq<SStmt>)>, l: (u16, Seq<u16>, Option<u16>, Option<u16>), conds: Seq<Conditional>) -> Seq<
    (u16, Seq<SStmt>),
> {
    let (header, ls, brk, cont) = l;
    let body0 = split_blocks(b, ls).1;
    let cond = loop_condition(body0, brk, header);
    let body1 = match cont {
        Some(c) => drop_back_edges_at(body0, c, header, cond),
        None => body0,
    };
    let body2 = break_continue_blocks(body1, brk, header, conds);
    match cont {
        Some(c) => drop_trailing_continue_at(body2, c),
        None => body2,
    }
}

/// The blocks after structuring one loop: its blocks leave the map, and its
/// header holds a single `DoWhile` over them.
pub open spec fn structure_loop(b: Seq<(u16, Seq<SStmt>)>, l: (u16, Seq<u16>, Option<u16>, Option<u16>), conds: Seq<Conditional>) -> Seq<
    (u16, Seq<SStmt>),
> {
    let header = l.0;
    let body0 = split_blocks(b, l.1).1;
    let cond = loop_condition(body0, l.2, header);
    ins_seq(
        split_blocks(b, l.1).0,
        header,
        seq![SStmt { addr: header, kind: SKind::DoWhile(cond.0, cond.1, loop_body(b, l, conds)) }],
    )
}

proof fn lemma_blocks_view_push(e: Seq<(u16, Vec<IRStmt>)>, x: (u16, Vec<IRStmt>))
    ensures
        blocks_view(e.push(x)) == blocks_view(e).push((x.0, stmts_view(x.1@))),
{
    assert(e.push(x).drop_last() =~= e);
}

proof fn lemma_blocks_view_prefix(e: Seq<(u16, Vec<IRStmt>)>, i: int)
    requires
        0 <= i < e.len(),
    ensures
        blocks_view(e.subrange(0, i + 1)) == blocks_view(e.subrange(0, i)).push((e[i].0, stmts_view(e[i].1@))),
{
    let x = e.subrange(0, i + 1);
    assert(x.drop_last() =~= e.subrange(0, i));
}

/// Moves the blocks of a loop out of the map, in order.
fn split_loop_blocks(goto_blocks: &mut AddrMap<Vec<IRStmt>>, lb: &Vec<u16>) -> (body: AddrMap<Vec<IRStmt>>)
    requires
        old(goto_blocks).wf(),
    ensures
        blocks_view(final(goto_blocks).entries@) == split_blocks(blocks_view(old(goto_blocks).entries@), lb@).0,
        blocks_view(body.entries@) == split_blocks(blocks_view(old(goto_blocks).entries@), lb@).1,
        final(goto_blocks).wf(),
        body.wf(),
{
    let ghost e = goto_blocks.entries@;
    let mut rest: Vec<(u16, Vec<IRStmt>)> = Vec::new();
    let mut inside: Vec<(u16, Vec<IRStmt>)> = Vec::new();
    let mut i: usize = 0;
    while i < goto_blocks.entries.len()
        invariant
            i <= e.len(),
            e == goto_blocks.entries@,
            sorted_keys(e),
            (blocks_view(rest@), blocks_view(inside@)) == split_blocks(blocks_view(e.subrange(0, i as int)), lb@),
            sorted_keys(rest@),
            sorted_keys(inside@),
            forall|a: int, j: int| 0 <= a < rest@.len() && i <= j < e.len() ==> #[trigger] rest@[a].0 < #[trigger] e[j].0,
            forall|a: int, j: int| 0 <= a < inside@.len() && i <= j < e.len() ==> #[trigger] inside@[a].0 < #[trigger] e[j].0,
        decreases e.len() - i,
    {
        proof {
            lemma_blocks_view_prefix(e, i as int);
            let x = blocks_view(e.subrange(0, i + 1));
            assert(x.drop_last() == blocks_view(e.subrange(0, i as int)));
            assert(x.last() == (e[i as int].0, stmts_view(e[i as int].1@)));
        }
        let k = goto_blocks.entries[i].0;
        let v = duplicate_stmts(&goto_blocks.entries[i].1);
        if has_addr(lb, k) {
            proof {
                lemma_blocks_view_push(inside@, (k, v));
            }
            inside.push((k, v));
        } else {
            proof {
                lemma_blocks_view_push(rest@, (k, v));
            }
            rest.push((k, v));
        }
        proof {
            assert forall|a: int, j: int| 0 <= a < rest@.len() && i + 1 <= j < e.len() implies #[trigger] rest@[a].0
                < #[trigger] e[j].0 by {
                assert(e[i as int].0 < e[j].0);
            }
            assert forall|a: int, j: int| 0 <= a < inside@.len() && i + 1 <= j < e.len() implies #[trigger] inside@[a].0
                < #[trigger] e[j].0 by {
                assert(e[i as int].0 < e[j].0);
            }
        }
        i = i + 1;
    }
    proof {
        assert(e.subrange(0, i as int) =~= e);
    }
    goto_blocks.entries = rest;
    AddrMap { entries: inside }
}

/// Computes `loop_condition` over the blocks of a loop body.
fn find_loop_condition(body: &AddrMap<Vec<IRStmt>>, brk: Option<u16>, header: u16) -> (r: (Option<Expr>, u8))
    ensures
        (opt_view(r.0), r.1) == loop_condition(blocks_view(body.entries@), brk, header),
{
    let b = match brk {
        Some(b) => b,
        None => {
            return (None, 0);
        },
    };
    let ghost e = body.entries@;
    let mut condition: Option<Expr> = None;
    let mut condition_cc: u8 = 0;
    let mut i: usize = 0;
    while i < body.entries.len()
        invariant
            i <= e.len(),
            e == body.entries@,
            (opt_view(condition), condition_cc) == cond_in_blocks((None, 0u8), blocks_view(e.subrange(0, i as int)), b, header),
        decreases e.len() - i,
    {
        proof {
            lemma_blocks_view_prefix(e, i as int);
            let x = blocks_view(e.subrange(0, i + 1));
            assert(x.drop_last() == blocks_view(e.subrange(0, i as int)));
        }
        let stmts = &body.entries[i].1;
        let ghost sv = stmts_view(stmts@);
        let ghost c0 = (opt_view(condition), condition_cc);
        proof {
            lemma_stmts_view(stmts@);
        }
        let mut j: usize = 0;
        while j < stmts.len()
            invariant
                j <= stmts@.len(),
                sv == stmts_view(stmts@),
                sv.len() == stmts@.len(),
                forall|q: int| 0 <= q < stmts@.len() ==> #[trigger] sv[q] == stmt_view(stmts@[q]),
                (opt_view(condition), condition_cc) == cond_in_stmts(c0, sv.subrange(0, j as int), b, header),
            decreases stmts@.len() - j,
        {
            proof {
                let x = sv.subrange(0, j + 1);
                assert(x.drop_last() =~= sv.subrange(0, j as int));
                assert(x.last() == sv[j as int]);
            }
            if let IRStmtKind::Goto(Some(ex), cc, target) = &stmts[j].kind {
                if *target == b {
                    condition = Some(ex.duplicate());
                    condition_cc = (!*cc) & 7;
                } else if *target == header {
                    condition = Some(ex.duplicate());
                    condition_cc = *cc;
                }
            }
            j = j + 1;
        }
        proof {
            assert(sv.subrange(0, j as int) =~= sv);
        }
        i = i + 1;
    }
    proof {
        assert(e.subrange(0, i as int) =~= e);
    }
    (condition, condition_cc)
}

/// The index of the first block with address `k`.
fn find_block(body: &AddrMap<Vec<IRStmt>>, k: u16) -> (r: Option<usize>)
    ensures
        r matches Some(i) ==> i < body.entries@.len() && bfind(blocks_view(body.entries@), k, 0) == i,
        r is None ==> bfind(blocks_view(body.entries@), k, 0) == -1,
{
    let ghost bv = blocks_view(body.entries@);
    proof {
        lemma_blocks_view(body.entries@);
    }
    let mut i: usize = 0;
    while i < body.entries.len()
        invariant
            i <= body.entries@.len(),
            bv == blocks_view(body.entries@),
            bv.len() == body.entries@.len(),
            forall|q: int| 0 <= q < body.entries@.len() ==> #[trigger] bv[q].0 == body.entries@[q].0,
            bfind(bv, k, 0) == bfind(bv, k, i as int),
        decreases body.entries@.len() - i,
    {
        if body.entries[i].0 == k {
            return Some(i);
        }
        i = i + 1;
    }
    None
}

/// Replaces the statements of the `i`th block.
fn set_block(body: &mut AddrMap<Vec<IRStmt>>, i: usize, v: Vec<IRStmt>)
    requires
        old(body).wf(),
        i < old(body).entries@.len(),
    ensures
        final(body).wf(),
        blocks_view(final(body).entries@) == blocks_view(old(body).entries@).update(
            i as int,
            (old(body).entries@[i as int].0, stmts_view(v@)),
        ),
        final(body).key_seq() == old(body).key_seq(),
{
    let ghost e0 = body.entries@;
    let ghost vv = stmts_view(v@);
    body.set_value(i, v);
    proof {
        lemma_blocks_view(e0);
        lemma_blocks_view(body.entries@);
        assert(blocks_view(body.entries@) =~= blocks_view(e0).update(i as int, (e0[i as int].0, vv)));
    }
}

/// Removes the back edges that the loop condition describes from a block.
fn drop_back_edges_vec(v: &Vec<IRStmt>, header: u16, cond: &Option<Expr>, cc: u8) -> (r: Vec<IRStmt>)
    ensures
        stmts_view(r@) == drop_back_edges(stmts_view(v@), header, (opt_view(*cond), cc)),
{
    let ghost sv = stmts_view(v@);
    let ghost c = (opt_view(*cond), cc);
    proof {
        lemma_stmts_view(v@);
    }
    let mut out: Vec<IRStmt> = Vec::new();
    let mut j: usize = 0;
    while j < v.len()
        invariant
            j <= v@.len(),
            sv == stmts_view(v@),
            sv.len() == v@.len(),
            forall|q: int| 0 <= q < v@.len() ==> #[trigger] sv[q] == stmt_view(v@[q]),
            c == (opt_view(*cond), cc),
            stmts_view(out@) == drop_back_edges(sv.subrange(0, j as int), header, c),
        decreases v@.len() - j,
    {
        proof {
            let x = sv.subrange(0, j + 1);
            assert(x.drop_last() =~= sv.subrange(0, j as int));
            assert(x.last() == sv[j as int]);
        }
        let back = match &v[j].kind {
            IRStmtKind::Goto(e, scc, t) => *t == header && *scc == cc && opt_eq(e, cond),
            _ => false,
        };
        if !back {
            let ghost o0 = out@;
            out.push(v[j].duplicate());
            proof {
                assert(out@.drop_last() =~= o0);
            }
        }
        j = j + 1;
    }
    proof {
        assert(sv.subrange(0, j as int) =~= sv);
    }
    out
}

/// Whether some conditional branches at block `k`.
fn is_condition_block(conditionals: &Vec<Conditional>, k: u16) -> (r: bool)
    ensures
        r == is_cond_block(conditionals@, k),
{
    let mut i: usize = 0;
    while i < conditionals.len()
        invariant
            i <= conditionals@.len(),
            forall|q: int| 0 <= q < i ==> conditionals@[q].condition_block != k,
        decreases conditionals@.len() - i,
    {
        if conditionals[i].condition_block == k {
            return true;
        }
        i = i + 1;
    }
    false
}

/// Builds `to_break_continue` of a statement.
fn break_continue_stmt(s: &IRStmt, brk: Option<u16>, header: u16, in_cond_block: bool) -> (r: IRStmt)
    ensures
        r@ == to_break_continue(s@, brk, header, in_cond_block),
{
    if let IRStmtKind::Goto(e, cc, t) = &s.kind {
        let target_is_break = match brk {
            Some(b) => b == *t,
            None => false,
        };
        let target_is_continue = *t == header;
        if (target_is_break || target_is_continue) && !in_cond_block {
            let new_kind = if target_is_break {
                IRStmtKind::Break
            } else {
                IRStmtKind::Continue
            };
            if *cc == 7 {
                return IRStmt { addr: s.addr, kind: new_kind };
            } else {
                let inner = IRStmt { addr: s.addr, kind: new_kind };
                let mut branch: Vec<IRStmt> = Vec::new();
                branch.push(inner);
                proof {
                    assert(branch@.drop_last() =~= Seq::<IRStmt>::empty());
                    assert(stmts_view(Seq::<IRStmt>::empty()) == Seq::<SStmt>::empty());
                    assert(branch@.last() == inner);
                    assert(stmts_view(branch@) == Seq::<SStmt>::empty().push(stmt_view(inner)));
                    assert(stmts_view(branch@) =~= seq![stmt_view(inner)]);
                }
                return IRStmt { addr: s.addr, kind: IRStmtKind::If(duplicate_opt(e), *cc, branch, None) };
            }
        }
    }
    s.duplicate()
}

/// Applies `to_break_continue` to every statement of every block.
fn break_continue_all(body: &AddrMap<Vec<IRStmt>>, brk: Option<u16>, header: u16, conditionals: &Vec<Conditional>) -> (r:
    AddrMap<Vec<IRStmt>>)
    requires
        body.wf(),
    ensures
        r.wf(),
        blocks_view(r.entries@) == break_continue_blocks(blocks_view(body.entries@), brk, header, conditionals@),
{
    let ghost bv = blocks_view(body.entries@);
    proof {
        lemma_blocks_view(body.entries@);
    }
    let mut entries: Vec<(u16, Vec<IRStmt>)> = Vec::new();
    let mut i: usize = 0;
    while i < body.entries.len()
        invariant
            i <= body.entries@.len(),
            bv == blocks_view(body.entries@),
            bv.len() == body.entries@.len(),
            forall|q: int| 0 <= q < body.entries@.len() ==> #[trigger] bv[q] == (body.entries@[q].0, stmts_view(body.entries@[q].1@)),
            entries@.len() == i,
            forall|q: int| 0 <= q < i ==> #[trigger] entries@[q].0 == body.entries@[q].0,
            forall|q: int| 0 <= q < i ==> stmts_view(#[trigger] entries@[q].1@) == break_continue_blocks(bv, brk, header, conditionals@)[q].1,
        decreases body.entries@.len() - i,
    {
        let k = body.entries[i].0;
        let stmts = &body.entries[i].1;
        let in_cond = is_condition_block(conditionals, k);
        let ghost sv = stmts_view(stmts@);
        proof {
            lemma_stmts_view(stmts@);
        }
        let mut out: Vec<IRStmt> = Vec::new();
        let mut j: usize = 0;
        while j < stmts.len()
            invariant
                j <= stmts@.len(),
                sv == stmts_view(stmts@),
                sv.len() == stmts@.len(),
                forall|q: int| 0 <= q < stmts@.len() ==> #[trigger] sv[q] == stmt_view(stmts@[q]),
                out@.len() == j,
                forall|q: int| 0 <= q < j ==> #[trigger] stmt_view(out@[q]) == to_break_continue(sv[q], brk, header, in_cond),
            decreases stmts@.len() - j,
        {
            let st = break_continue_stmt(&stmts[j], brk, header, in_cond);
            out.push(st);
            j = j + 1;
        }
        proof {
            lemma_stmts_view(out@);
            assert(stmts_view(out@) =~= break_continue_blocks(bv, brk, header, conditionals@)[i as int].1);
        }
        let ghost e0 = entries@;
        entries.push((k, out));
        proof {
            assert forall|q: int| 0 <= q < i + 1 implies stmts_view(#[trigger] entries@[q].1@) == break_continue_blocks(bv, brk, header, conditionals@)[q].1 by {
                if q < i {
                    assert(entries@[q] == e0[q]);
                }
            }
        }
        i = i + 1;
    }
    let r = AddrMap { entries };
    proof {
        lemma_blocks_view(r.entries@);
        assert(blocks_view(r.entries@) =~= break_continue_blocks(bv, brk, header, conditionals@));
        assert forall|a: int, c: int| 0 <= a < c < r.entries@.len() implies #[trigger] r.entries@[a].0
            < #[trigger] r.entries@[c].0 by {
            assert(body.entries@[a].0 < body.entries@[c].0);
        }
    }
    r
}

proof fn lemma_ins_pos_eq(e: Seq<(u16, Vec<IRStmt>)>, b: Seq<(u16, Seq<SStmt>)>, k: u16, i: int)
    requires
        e.len() == b.len(),
        forall|q: int| 0 <= q < e.len() ==> #[trigger] e[q].0 == b[q].0,
    ensures
        ins_pos(e, k, i) == ins_pos(b, k, i),
    decreases e.len() - i,
{
    if 0 <= i < e.len() && e[i].0 < k {
        lemma_ins_pos_eq(e, b, k, i + 1);
    }
}

proof fn lemma_ins_pos_range<V>(s: Seq<(u16, V)>, k: u16, i: int)
    requires
        0 <= i <= s.len(),
    ensures
        i <= ins_pos(s, k, i) <= s.len(),
    decreases s.len() - i,
{
    if i < s.len() && s[i].0 < k {
        lemma_ins_pos_range(s, k, i + 1);
    }
}

proof fn lemma_blocks_view_ins(e: Seq<(u16, Vec<IRStmt>)>, k: u16, v: Vec<IRStmt>)
    ensures
        blocks_view(ins_seq(e, k, v)) == ins_seq(blocks_view(e), k, stmts_view(v@)),
{
    let b = blocks_view(e);
    lemma_blocks_view(e);
    lemma_ins_pos_eq(e, b, k, 0);
    lemma_ins_pos_range(e, k, 0);
    let r = ins_seq(e, k, v);
    lemma_blocks_view(r);
    assert(blocks_view(r) =~= ins_seq(b, k, stmts_view(v@)));
}

/// Structures one loop: moves its blocks into a `DoWhile` at its header (see
/// `structure_loop`).
fn structure_one_loop(goto_blocks: &mut AddrMap<Vec<IRStmt>>, l: &Loop, conditionals: &Vec<Conditional>)
    requires
        old(goto_blocks).wf(),
    ensures
        final(goto_blocks).wf(),
        blocks_view(final(goto_blocks).entries@) == structure_loop(
            blocks_view(old(goto_blocks).entries@),
            crate::control_flow::loop_fields(*l),
            conditionals@,
        ),
{
    let ghost b0 = blocks_view(goto_blocks.entries@);
    let header = l.header;
    let mut body = split_loop_blocks(goto_blocks, &l.blocks);
    let ghost body0 = blocks_view(body.entries@);
    let (condition, condition_cc) = find_loop_condition(&body, l.break_block, header);
    if let Some(c) = l.continue_block {
        match find_block(&body, c) {
            Some(i) => {
                proof {
                    lemma_bfind(body0, c, 0);
                    lemma_blocks_view(body.entries@);
                }
                let nv = drop_back_edges_vec(&body.entries[i].1, header, &condition, condition_cc);
                set_block(&mut body, i, nv);
            },
            None => {},
        }
    }
    let ghost body1 = blocks_view(body.entries@);
    let ghost cond = (opt_view(condition), condition_cc);
    proof {
        assert(body1 == match l.continue_block {
            Some(c) => drop_back_edges_at(body0, c, header, cond),
            None => body0,
        });
    }
    let mut body2 = break_continue_all(&body, l.break_block, header, conditionals);
    let ghost body2v = blocks_view(body2.entries@);
    if let Some(c) = l.continue_block {
        match find_block(&body2, c) {
            Some(i) => {
                proof {
                    lemma_bfind(body2v, c, 0);
                    lemma_blocks_view(body2.entries@);
                }
                let mut v = duplicate_stmts(&body2.entries[i].1);
                let ghost v0 = v@;
                proof {
                    lemma_stmts_view(v@);
                }
                let trailing = v.len() > 0 && match &v[v.len() - 1].kind {
                    IRStmtKind::Continue => true,
                    _ => false,
                };
                let ghost sv0 = stmts_view(v0);
                proof {
                    assert(sv0 == body2v[i as int].1);
                    if v0.len() > 0 {
                        assert(sv0.last() == stmt_view(v0.last()));
                    }
                    assert(trailing == (sv0.len() > 0 && sv0.last().kind is Continue));
                }
                if trailing {
                    v.pop();
                    proof {
                        assert(v@ =~= v0.drop_last());
                        assert(stmts_view(v@) == sv0.drop_last());
                    }
                }
                proof {
                    assert(stmts_view(v@) == drop_trailing_continue(body2v[i as int].1));
                }
                set_block(&mut body2, i, v);
            },
            None => {},
        }
    }
    proof {
        assert(blocks_view(body2.entries@) == match l.continue_block {
            Some(c) => drop_trailing_continue_at(body2v, c),
            None => body2v,
        });
        assert(blocks_view(body2.entries@) == loop_body(b0, crate::control_flow::loop_fields(*l), conditionals@));
    }
    let st = IRStmt { addr: header, kind: IRStmtKind::DoWhile(condition, condition_cc, body2) };
    let mut stmts: Vec<IRStmt> = Vec::new();
    stmts.push(st);
    proof {
        assert(stmts@.drop_last() =~= Seq::<IRStmt>::empty());
        assert(stmts_view(Seq::<IRStmt>::empty()) == Seq::<SStmt>::empty());
        assert(stmts_view(stmts@) =~= seq![stmt_view(st)]);
        lemma_blocks_view_ins(goto_blocks.entries@, header, stmts);
    }
    goto_blocks.insert(header, stmts);
}

/// The blocks after structuring the loops `ls` in order.
pub open spec fn structure_all(b: Seq<(u16, Seq<SStmt>)>, ls: Seq<Loop>, conds: Seq<Conditional>) -> Seq<(u16, Seq<SStmt>)>
    decreases ls.len(),
{
    if ls.len() == 0 {
        b
    } else {
        structure_loop(structure_all(b, ls.drop_last(), conds), crate::control_flow::loop_fields(ls.last()), conds)
    }
}

/// Turns each loop, innermost first, into a `DoWhile` statement at its
/// header holding its blocks; gotos to the exit and to the header become
/// `Break` and `Continue` outside conditional branches.
pub fn structure_loops(
    goto_blocks: &mut AddrMap<Vec<IRStmt>>,
    loops: &Vec<Loop>,
    _blocks: &AddrMap<BasicBlock>,
    conditionals: &Vec<Conditional>,
)
    requires
        old(goto_blocks).wf(),
    ensures
        final(goto_blocks).wf(),
        blocks_view(final(goto_blocks).entries@) == structure_all(blocks_view(old(goto_blocks).entries@), loops@, conditionals@),
        loops_structured(blocks_view(old(goto_blocks).entries@), blocks_view(final(goto_blocks).entries@), loops@),
{
    let ghost b0 = blocks_view(goto_blocks.entries@);
    proof {
        let e = goto_blocks.entries@;
        lemma_blocks_view(e);
        assert forall|i: int, j: int| 0 <= i < j < b0.len() implies #[trigger] b0[i].0 < #[trigger] b0[j].0 by {
            assert(e[i].0 < e[j].0);
        }
        law_structure_loops(b0, loops@, conditionals@);
    }
    let mut i: usize = 0;
    while i < loops.len()
        invariant
            i <= loops@.len(),
            goto_blocks.wf(),
            blocks_view(goto_blocks.entries@) == structure_all(b0, loops@.subrange(0, i as int), conditionals@),
        decreases loops@.len() - i,
    {
        proof {
            let x = loops@.subrange(0, i + 1);
            assert(x.drop_last() =~= loops@.subrange(0, i as int));
            assert(x.last() == loops@[i as int]);
        }
        structure_one_loop(goto_blocks, &loops[i], conditionals);
        i = i + 1;
    }
    proof {
        assert(loops@.subrange(0, i as int) =~= loops@);
    }
}

proof fn lemma_split_blocks(b: Seq<(u16, Seq<SStmt>)>, ls: Seq<u16>)
    requires
        sorted_keys(b),
    ensures
        sorted_keys(split_blocks(b, ls).0),
        forall|e: (u16, Seq<SStmt>)| #[trigger] split_blocks(b, ls).0.contains(e) <==> b.contains(e) && !ls.contains(e.0),
        forall|e: (u16, Seq<SStmt>)| #[trigger] split_blocks(b, ls).1.contains(e) <==> b.contains(e) && ls.contains(e.0),
    decreases b.len(),
{
    if b.len() > 0 {
        let p = b.drop_last();
        assert(sorted_keys(p)) by {
            assert forall|i: int, j: int| 0 <= i < j < p.len() implies #[trigger] p[i].0 < #[trigger] p[j].0 by {
                assert(b[i].0 < b[j].0);
            }
        }
        lemma_split_blocks(p, ls);
        let (r, l) = split_blocks(p, ls);
        let x = b.last();
        assert forall|e: (u16, Seq<SStmt>)| #[trigger] b.contains(e) <==> p.contains(e) || e == x by {
            if b.contains(e) {
                let i = choose|i: int| 0 <= i < b.len() && b[i] == e;
                if i < p.len() {
                    assert(p[i] == e);
                }
            }
            if p.contains(e) {
                let i = choose|i: int| 0 <= i < p.len() && p[i] == e;
                assert(b[i] == e);
            }
            if e == x {
                assert(b[b.len() - 1] == e);
            }
        }
        assert forall|e: (u16, Seq<SStmt>)| #[trigger] r.push(x).contains(e) <==> r.contains(e) || e == x by {
            if r.push(x).contains(e) {
                let i = choose|i: int| 0 <= i < r.push(x).len() && r.push(x)[i] == e;
                if i < r.len() {
                    assert(r[i] == e);
                }
            }
            if r.contains(e) {
                let i = choose|i: int| 0 <= i < r.len() && r[i] == e;
                assert(r.push(x)[i] == e);
            }
            if e == x {
                assert(r.push(x)[r.len() as int] == e);
            }
        }
        assert forall|e: (u16, Seq<SStmt>)| #[trigger] l.push(x).contains(e) <==> l.contains(e) || e == x by {
            if l.push(x).contains(e) {
                let i = choose|i: int| 0 <= i < l.push(x).len() && l.push(x)[i] == e;
                if i < l.len() {
                    assert(l[i] == e);
                }
            }
            if l.contains(e) {
                let i = choose|i: int| 0 <= i < l.len() && l[i] == e;
                assert(l.push(x)[i] == e);
            }
            if e == x {
                assert(l.push(x)[l.len() as int] == e);
            }
        }
        if !ls.contains(x.0) {
            assert(!p.contains(x)) by {
                if p.contains(x) {
                    let i = choose|i: int| 0 <= i < p.len() && p[i] == x;
                    assert(b[i].0 < b[b.len() - 1].0);
                }
            }
            assert(sorted_keys(r.push(x))) by {
                assert forall|i: int, j: int| 0 <= i < j < r.push(x).len() implies #[trigger] r.push(x)[i].0 < #[trigger] r.push(x)[j].0 by {
                    if j == r.len() {
                        assert(r.contains(r[i]));
                        let q = choose|q: int| 0 <= q < p.len() && p[q] == r[i];
                        assert(b[q].0 < b[b.len() - 1].0);
                    } else {
                        assert(r.push(x)[i] == r[i]);
                        assert(r.push(x)[j] == r[j]);
                    }
                }
            }
        }
    }
}

proof fn lemma_sorted_contains_map(s: Seq<(u16, Seq<SStmt>)>, e: (u16, Seq<SStmt>))
    requires
        sorted_keys(s),
        s.contains(e),
    ensures
        seq_map(s).dom().contains(e.0),
        seq_map(s)[e.0] == e.1,
{
    let i = choose|i: int| 0 <= i < s.len() && s[i] == e;
    lemma_seq_map_at(s, i);
}

/// The blocks outside a loop are, as a map, the blocks with the loop's
/// blocks removed.
proof fn lemma_split_map(b: Seq<(u16, Seq<SStmt>)>, ls: Seq<u16>)
    requires
        sorted_keys(b),
    ensures
        sorted_keys(split_blocks(b, ls).0),
        seq_map(split_blocks(b, ls).0) == seq_map(b).remove_keys(ls.to_set()),
{
    lemma_split_blocks(b, ls);
    let r = split_blocks(b, ls).0;
    let m = seq_map(b).remove_keys(ls.to_set());
    assert forall|k: u16| #[trigger] seq_map(r).dom().contains(k) <==> m.dom().contains(k) by {
        if seq_map(r).dom().contains(k) {
            let i = choose|i: int| 0 <= i < r.len() && #[trigger] r[i].0 == k;
            assert(r.contains(r[i]));
            lemma_sorted_contains_map(b, r[i]);
        }
        if m.dom().contains(k) {
            let i = choose|i: int| 0 <= i < b.len() && #[trigger] b[i].0 == k;
            assert(b.contains(b[i]));
            assert(r.contains(b[i]));
            lemma_sorted_contains_map(r, b[i]);
        }
    }
    assert forall|k: u16| #[trigger] seq_map(r).dom().contains(k) implies seq_map(r)[k] == m[k] by {
        let i = choose|i: int| 0 <= i < r.len() && #[trigger] r[i].0 == k;
        assert(r.contains(r[i]));
        lemma_sorted_contains_map(r, r[i]);
        lemma_sorted_contains_map(b, r[i]);
    }
    assert(seq_map(r) =~= m);
}

/// The body of a structured loop holds blocks of the loop, each with its
/// start address.
proof fn lemma_loop_body_keys(b: Seq<(u16, Seq<SStmt>)>, l: (u16, Seq<u16>, Option<u16>, Option<u16>), conds: Seq<Conditional>)
    requires
        sorted_keys(b),
    ensures
        forall|i: int| 0 <= i < loop_body(b, l, conds).len() ==> l.1.contains(#[trigger] loop_body(b, l, conds)[i].0) && seq_map(b).dom().contains(loop_body(b, l, conds)[i].0),
        forall|k: u16| #[trigger] seq_map(b).dom().contains(k) && l.1.contains(k) ==> seq_has(loop_body(b, l, conds), k),
{
    let (header, ls, brk, cont) = l;
    lemma_split_blocks(b, ls);
    let body0 = split_blocks(b, ls).1;
    let cond = loop_condition(body0, brk, header);
    let body1 = match cont {
        Some(c) => drop_back_edges_at(body0, c, header, cond),
        None => body0,
    };
    if let Some(c) = cont {
        lemma_bfind(body0, c, 0);
    }
    assert(body1.len() == body0.len());
    assert forall|i: int| 0 <= i < body1.len() implies #[trigger] body1[i].0 == body0[i].0 by {}
    let body2 = break_continue_blocks(body1, brk, header, conds);
    let body3 = loop_body(b, l, conds);
    if let Some(c) = cont {
        lemma_bfind(body2, c, 0);
    }
    assert(body3.len() == body0.len());
    assert forall|i: int| 0 <= i < body3.len() implies l.1.contains(#[trigger] body3[i].0) && seq_map(b).dom().contains(body3[i].0) by {
        assert(body3[i].0 == body2[i].0);
        assert(body2[i].0 == body1[i].0);
        assert(body0.contains(body0[i]));
        lemma_sorted_contains_map(b, body0[i]);
    }
    assert forall|k: u16| #[trigger] seq_map(b).dom().contains(k) && l.1.contains(k) implies seq_has(body3, k) by {
        let i = choose|i: int| 0 <= i < b.len() && #[trigger] b[i].0 == k;
        assert(b.contains(b[i]));
        assert(body0.contains(b[i]));
        let j = choose|j: int| 0 <= j < body0.len() && body0[j] == b[i];
        assert(body3[j].0 == body2[j].0);
        assert(body2[j].0 == body1[j].0);
        assert(body3[j].0 == k);
    }
}

/// The statement that structuring a loop puts at its header.
pub open spec fn loop_stmt(b: Seq<(u16, Seq<SStmt>)>, l: (u16, Seq<u16>, Option<u16>, Option<u16>), conds: Seq<Conditional>) -> SStmt {
    let cond = loop_condition(split_blocks(b, l.1).1, l.2, l.0);
    SStmt { addr: l.0, kind: SKind::DoWhile(cond.0, cond.1, loop_body(b, l, conds)) }
}

/// Structuring one loop (a step of `structure_loops`) removes the loop's
/// blocks from the map and puts at its header a single `DoWhile` whose body
/// holds, each at its start address, exactly the loop's blocks that the map
/// had; every other block stays as it is.
pub proof fn law_structure_loop(b: Seq<(u16, Seq<SStmt>)>, l: (u16, Seq<u16>, Option<u16>, Option<u16>), conds: Seq<Conditional>)
    requires
        sorted_keys(b),
    ensures
        sorted_keys(structure_loop(b, l, conds)),
        seq_map(structure_loop(b, l, conds)) == seq_map(b).remove_keys(l.1.to_set()).insert(l.0, seq![loop_stmt(b, l, conds)]),
        forall|i: int|
            0 <= i < loop_body(b, l, conds).len() ==> l.1.contains(#[trigger] loop_body(b, l, conds)[i].0) && seq_map(b).dom().contains(
                loop_body(b, l, conds)[i].0,
            ),
        forall|k: u16| #[trigger] seq_map(b).dom().contains(k) && l.1.contains(k) ==> seq_has(loop_body(b, l, conds), k),
{
    lemma_split_map(b, l.1);
    lemma_ins_seq(split_blocks(b, l.1).0, l.0, seq![loop_stmt(b, l, conds)]);
    lemma_loop_body_keys(b, l, conds);
}

/// Whether the loop `i` of `ls` is the last one to structure a block at
/// `k`: `k` is its header and no later loop holds `k` among its blocks.
pub open spec fn last_header(ls: Seq<Loop>, i: int, k: u16) -> bool {
    0 <= i < ls.len() && ls[i].header == k && forall|j: int| i < j < ls.len() ==> !(#[trigger] ls[j].blocks@.contains(k))
}

/// Whether no loop of `ls` holds `k` among its blocks.
pub open spec fn in_no_loop(ls: Seq<Loop>, k: u16) -> bool {
    forall|i: int| 0 <= i < ls.len() ==> !(#[trigger] ls[i].blocks@.contains(k))
}

/// What structuring the loops `ls` in order makes of the blocks `b`: the
/// blocks that no loop holds stay, each as it was unless it is a loop
/// header; the blocks of the loops leave, but for the header of each loop
/// that no later loop holds, which holds a single `DoWhile` statement at its
/// address; nothing else is there.
pub open spec fn loops_structured(b: Seq<(u16, Seq<SStmt>)>, r: Seq<(u16, Seq<SStmt>)>, ls: Seq<Loop>) -> bool {
    &&& forall|k: u16|
        #[trigger] seq_map(r).dom().contains(k) <==> (seq_map(b).dom().contains(k) && in_no_loop(ls, k))
            || exists|i: int| #[trigger] last_header(ls, i, k)
    &&& forall|k: u16|
        seq_map(b).dom().contains(k) && in_no_loop(ls, k) && (forall|i: int| 0 <= i < ls.len() ==> (#[trigger] ls[i]).header != k)
            ==> #[trigger] seq_map(r)[k] == seq_map(b)[k]
    &&& forall|i: int, k: u16|
        #[trigger] last_header(ls, i, k) ==> seq_map(r)[k].len() == 1 && seq_map(r)[k][0].addr == k && seq_map(r)[k][0].kind is DoWhile
}

/// What `structure_loops` leaves (see its contract): the blocks that no loop
/// holds stay, each as it was unless it is a loop header; the blocks of the
/// loops leave, but for the header of each loop that no later loop holds,
/// which holds a single `DoWhile` statement of that loop; nothing else is
/// there.
pub proof fn law_structure_loops(b: Seq<(u16, Seq<SStmt>)>, ls: Seq<Loop>, conds: Seq<Conditional>)
    requires
        sorted_keys(b),
    ensures
        sorted_keys(structure_all(b, ls, conds)),
        loops_structured(b, structure_all(b, ls, conds), ls),
    decreases ls.len(),
{
    if ls.len() > 0 {
        let p = ls.drop_last();
        law_structure_loops(b, p, conds);
        let r0 = structure_all(b, p, conds);
        let l = crate::control_flow::loop_fields(ls.last());
        law_structure_loop(r0, l, conds);
        let r = structure_all(b, ls, conds);
        let n = ls.len() - 1;
        let h = ls[n].header;
        assert(r == structure_loop(r0, l, conds));
        assert(l.0 == h && l.1 == ls[n].blocks@);
        assert forall|j: int| 0 <= j < p.len() implies #[trigger] p[j] == ls[j] by {}
        assert forall|k: u16| #[trigger] seq_map(r).dom().contains(k) <==> (seq_map(b).dom().contains(k) && in_no_loop(ls, k))
            || exists|i: int| #[trigger] last_header(ls, i, k) by {
            if k == h {
                assert(last_header(ls, n, k));
            } else {
                assert(seq_map(r).dom().contains(k) <==> seq_map(r0).dom().contains(k) && !ls[n].blocks@.contains(k));
                if seq_map(b).dom().contains(k) && in_no_loop(ls, k) {
                    assert(in_no_loop(p, k)) by {
                        assert forall|i: int| 0 <= i < p.len() implies !(#[trigger] p[i].blocks@.contains(k)) by {
                            assert(!ls[i].blocks@.contains(k));
                        }
                    }
                    assert(!ls[n].blocks@.contains(k));
                }
                if exists|i: int| #[trigger] last_header(ls, i, k) {
                    let i = choose|i: int| #[trigger] last_header(ls, i, k);
                    assert(i != n);
                    assert(last_header(p, i, k)) by {
                        assert forall|j: int| i < j < p.len() implies !(#[trigger] p[j].blocks@.contains(k)) by {
                            assert(!ls[j].blocks@.contains(k));
                        }
                    }
                    assert(!ls[n].blocks@.contains(k));
                }
                if seq_map(r0).dom().contains(k) && !ls[n].blocks@.contains(k) {
                    if seq_map(b).dom().contains(k) && in_no_loop(p, k) {
                        assert(in_no_loop(ls, k)) by {
                            assert forall|i: int| 0 <= i < ls.len() implies !(#[trigger] ls[i].blocks@.contains(k)) by {
                                if i < n {
                                    assert(!p[i].blocks@.contains(k));
                                }
                            }
                        }
                    } else {
                        let i = choose|i: int| #[trigger] last_header(p, i, k);
                        assert(last_header(ls, i, k)) by {
                            assert forall|j: int| i < j < ls.len() implies !(#[trigger] ls[j].blocks@.contains(k)) by {
                                if j < n {
                                    assert(!p[j].blocks@.contains(k));
                                }
                            }
                        }
                    }
                }
            }
        }
        assert forall|k: u16|
            seq_map(b).dom().contains(k) && in_no_loop(ls, k) && (forall|i: int| 0 <= i < ls.len() ==> (#[trigger] ls[i]).header != k)
                implies #[trigger] seq_map(r)[k] == seq_map(b)[k] by {
            assert(in_no_loop(p, k)) by {
                assert forall|i: int| 0 <= i < p.len() implies !(#[trigger] p[i].blocks@.contains(k)) by {
                    assert(!ls[i].blocks@.contains(k));
                }
            }
            assert forall|i: int| 0 <= i < p.len() implies (#[trigger] p[i]).header != k by {
                assert(ls[i].header != k);
            }
            assert(ls[n].header != k);
            assert(!ls[n].blocks@.contains(k));
        }
        assert forall|i: int, k: u16| #[trigger] last_header(ls, i, k) implies seq_map(r)[k].len() == 1 && seq_map(r)[k][0].addr == k
            && seq_map(r)[k][0].kind is DoWhile by {
            if i == n {
            } else {
                assert(last_header(p, i, k)) by {
                    assert forall|j: int| i < j < p.len() implies !(#[trigger] p[j].blocks@.contains(k)) by {
                        assert(!ls[j].blocks@.contains(k));
                    }
                }
                assert(!ls[n].blocks@.contains(k));
                if k != h {
                    assert(seq_map(r0).dom().contains(k));
                }
            }
        }
    } else {
        assert forall|k: u16| #[trigger] seq_map(b).dom().contains(k) implies in_no_loop(ls, k) by {}
    }
}

} // verus!
