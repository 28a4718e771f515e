use vstd::prelude::*;
use crate::addr_map::AddrMap;
use crate::liveness::{LivenessInfo, reg_bit};
use crate::ir::{
    Expr, IRStmt, IRStmtKind, SExpr, SKind, SStmt, blocks_view, expr_view, exprs_view, kind_view,
    opt_view, stmt_view, stmts_view, lemma_blocks_view, lemma_exprs_view, lemma_stmts_view,
    duplicate_exprs, duplicate_opt, duplicate_stmts,
};

verus! {

/// How often register `reg` is read in an expression.
pub open spec fn count_e(e: SExpr, reg: u8) -> nat
    decreases e,
{
    match e {
        SExpr::Register(r) => if r == reg { 1 } else { 0 },
        SExpr::Immediate(_) => 0,
        SExpr::Param(_) => 0,
        SExpr::Add(a, b) => count_e(*a, reg) + count_e(*b, reg),
        SExpr::Sub(a, b) => count_e(*a, reg) + count_e(*b, reg),
        SExpr::And(a, b) => count_e(*a, reg) + count_e(*b, reg),
        SExpr::Not(a) => count_e(*a, reg),
        SExpr::Neg(a) => count_e(*a, reg),
        SExpr::Load(a) => count_e(*a, reg),
        SExpr::Call(t, args) => count_e(*t, reg) + count_es(args, reg),
        SExpr::LogicalAnd(a, _, b, _) => count_e(*a, reg) + count_e(*b, reg),
        SExpr::LogicalOr(a, _, b, _) => count_e(*a, reg) + count_e(*b, reg),
    }
}

/// How often register `reg` is read in a sequence of expressions.
pub open spec fn count_es(s: Seq<SExpr>, reg: u8) -> nat
    decreases s,
{
    if s.len() == 0 {
        0
    } else {
        count_es(s.drop_last(), reg) + count_e(s.last(), reg)
    }
}

/// How often register `reg` is read in an optional expression.
pub open spec fn count_opt(o: Option<SExpr>, reg: u8) -> nat {
    match o {
        Some(e) => count_e(e, reg),
        None => 0,
    }
}

/// How often register `reg` is read in a statement, nested statements included.
pub open spec fn count_s(st: SStmt, reg: u8) -> nat
    decreases st,
{
    match st.kind {
        SKind::Assign(_, e) => count_e(e, reg),
        SKind::Store(a, v) => count_e(a, reg) + count_e(v, reg),
        SKind::Goto(c, _, _) => count_opt(c, reg),
        SKind::Call(t, args) => count_e(t, reg) + count_es(args, reg),
        SKind::Return(c) => count_opt(c, reg),
        SKind::Trap(_) => 0,
        SKind::Break => 0,
        SKind::Continue => 0,
        SKind::DoWhile(c, _, body) => count_opt(c, reg) + count_bs(body, reg),
        SKind::While(c, _, body) => count_opt(c, reg) + count_bs(body, reg),
        SKind::For(init, c, _, incr, body) => count_s(*init, reg) + count_opt(c, reg) + count_s(*incr, reg)
            + count_bs(body, reg),
        SKind::If(c, _, t, f) => count_opt(c, reg) + count_ss(t, reg) + match f {
            Some(fs) => count_ss(fs, reg),
            None => 0,
        },
    }
}

/// How often register `reg` is read in a sequence of statements.
pub open spec fn count_ss(s: Seq<SStmt>, reg: u8) -> nat
    decreases s,
{
    if s.len() == 0 {
        0
    } else {
        count_ss(s.drop_last(), reg) + count_s(s.last(), reg)
    }
}

/// How often register `reg` is read in a sequence of blocks.
pub open spec fn count_bs(b: Seq<(u16, Seq<SStmt>)>, reg: u8) -> nat
    decreases b,
{
    if b.len() == 0 {
        0
    } else {
        count_bs(b.drop_last(), reg) + count_ss(b.last().1, reg)
    }
}

/// `n`, or 2 where it is larger: all that the single-use test needs.
pub open spec fn cap2(n: nat) -> nat {
    if n < 2 {
        n
    } else {
        2
    }
}

/// `a + b` capped at 2, for `a` and `b` already capped.
fn cap_add(a: usize, b: usize) -> (r: usize)
    requires
        a <= 2,
        b <= 2,
    ensures
        r == cap2((a + b) as nat),
{
    if a + b > 2 {
        2
    } else {
        a + b
    }
}

/// How often `reg` is read in `expr`, capped at 2.
fn count_reg_uses_in_expr(expr: &Expr, reg: u8) -> (n: usize)
    ensures
        n == cap2(count_e(expr@, reg)),
    decreases expr,
{
    match expr {
        Expr::Register(r) => if *r == reg {
            1
        } else {
            0
        },
        Expr::Immediate(_) => 0,
        Expr::Param(_) => 0,
        Expr::Add(l, r) => cap_add(count_reg_uses_in_expr(l, reg), count_reg_uses_in_expr(r, reg)),
        Expr::Sub(l, r) => cap_add(count_reg_uses_in_expr(l, reg), count_reg_uses_in_expr(r, reg)),
        Expr::And(l, r) => cap_add(count_reg_uses_in_expr(l, reg), count_reg_uses_in_expr(r, reg)),
        Expr::Not(e) => count_reg_uses_in_expr(e, reg),
        Expr::Neg(e) => count_reg_uses_in_expr(e, reg),
        Expr::Load(e) => count_reg_uses_in_expr(e, reg),
        Expr::Call(target, args) => cap_add(count_reg_uses_in_expr(target, reg), count_reg_uses_in_exprs(args, reg)),
        Expr::LogicalAnd(l, _, r, _) => cap_add(count_reg_uses_in_expr(l, reg), count_reg_uses_in_expr(r, reg)),
        Expr::LogicalOr(l, _, r, _) => cap_add(count_reg_uses_in_expr(l, reg), count_reg_uses_in_expr(r, reg)),
    }
}

/// How often `reg` is read in a vector of expressions, capped at 2.
fn count_reg_uses_in_exprs(v: &Vec<Expr>, reg: u8) -> (n: usize)
    ensures
        n == cap2(count_es(exprs_view(v@), reg)),
    decreases v,
{
    let mut n: usize = 0;
    let mut i: usize = 0;
    while i < v.len()
        invariant
            i <= v@.len(),
            n == cap2(count_es(exprs_view(v@.subrange(0, i as int)), reg)),
        decreases v@.len() - i,
    {
        proof {
            assert(decreases_to!(v => v[i as int]));
        }
        let c = count_reg_uses_in_expr(&v[i], reg);
        proof {
            let x = v@.subrange(0, i + 1);
            assert(x.drop_last() =~= v@.subrange(0, i as int));
            assert(exprs_view(x).drop_last() == exprs_view(x.drop_last()));
        }
        n = cap_add(n, c);
        i = i + 1;
    }
    proof {
        assert(v@.subrange(0, i as int) =~= v@);
    }
    n
}

/// How often `reg` is read in an optional expression, capped at 2.
fn count_reg_uses_in_opt(e: &Option<Expr>, reg: u8) -> (n: usize)
    ensures
        n == cap2(count_opt(opt_view(*e), reg)),
{
    match e {
        Some(x) => count_reg_uses_in_expr(x, reg),
        None => 0,
    }
}

/// How often `reg` is read in a statement, nested statements included, capped
/// at 2.
fn count_reg_uses_in_stmt(stmt: &IRStmt, reg: u8) -> (n: usize)
    ensures
        n == cap2(count_s(stmt@, reg)),
    decreases stmt,
{
    match &stmt.kind {
        IRStmtKind::Assign(_, e) => count_reg_uses_in_expr(e, reg),
        IRStmtKind::Store(a, v) => cap_add(count_reg_uses_in_expr(a, reg), count_reg_uses_in_expr(v, reg)),
        IRStmtKind::Goto(c, _, _) => count_reg_uses_in_opt(c, reg),
        IRStmtKind::Call(t, args) => cap_add(count_reg_uses_in_expr(t, reg), count_reg_uses_in_exprs(args, reg)),
        IRStmtKind::Return(c) => count_reg_uses_in_opt(c, reg),
        IRStmtKind::Trap(_) => 0,
        IRStmtKind::Break => 0,
        IRStmtKind::Continue => 0,
        IRStmtKind::DoWhile(c, _, body) => cap_add(count_reg_uses_in_opt(c, reg), count_reg_uses_in_blocks(body, reg)),
        IRStmtKind::While(c, _, body) => cap_add(count_reg_uses_in_opt(c, reg), count_reg_uses_in_blocks(body, reg)),
        IRStmtKind::For(init, c, _, incr, body) => {
            let a = cap_add(count_reg_uses_in_stmt(init, reg), count_reg_uses_in_opt(c, reg));
            let b = cap_add(a, count_reg_uses_in_stmt(incr, reg));
            cap_add(b, count_reg_uses_in_blocks(body, reg))
        },
        IRStmtKind::If(c, _, t, f) => {
            let a = cap_add(count_reg_uses_in_opt(c, reg), count_reg_uses_in_stmts(t, reg));
            match f {
                Some(fs) => cap_add(a, count_reg_uses_in_stmts(fs, reg)),
                None => a,
            }
        },
    }
}

/// How often `reg` is read in a vector of statements, capped at 2.
fn count_reg_uses_in_stmts(v: &Vec<IRStmt>, reg: u8) -> (n: usize)
    ensures
        n == cap2(count_ss(stmts_view(v@), reg)),
    decreases v,
{
    let mut n: usize = 0;
    let mut i: usize = 0;
    while i < v.len()
        invariant
            i <= v@.len(),
            n == cap2(count_ss(stmts_view(v@.subrange(0, i as int)), reg)),
        decreases v@.len() - i,
    {
        proof {
            assert(decreases_to!(v => v[i as int]));
        }
        let c = count_reg_uses_in_stmt(&v[i], reg);
        proof {
            let x = v@.subrange(0, i + 1);
            assert(x.drop_last() =~= v@.subrange(0, i as int));
            assert(stmts_view(x).drop_last() == stmts_view(x.drop_last()));
        }
        n = cap_add(n, c);
        i = i + 1;
    }
    proof {
        assert(v@.subrange(0, i as int) =~= v@);
    }
    n
}

/// How often `reg` is read in the blocks of a loop body, capped at 2.
fn count_reg_uses_in_blocks(m: &AddrMap<Vec<IRStmt>>, reg: u8) -> (n: usize)
    ensures
        n == cap2(count_bs(blocks_view(m.entries@), reg)),
    decreases m,
{
    let mut n: usize = 0;
    let mut i: usize = 0;
    while i < m.entries.len()
        invariant
            i <= m.entries@.len(),
            n == cap2(count_bs(blocks_view(m.entries@.subrange(0, i as int)), reg)),
        decreases m.entries@.len() - i,
    {
        proof {
            assert(decreases_to!(m => m.entries));
            assert(decreases_to!(m.entries => m.entries[i as int]));
            assert(decreases_to!(m.entries[i as int] => m.entries[i as int].1));
        }
        let c = count_reg_uses_in_stmts(&m.entries[i].1, reg);
        proof {
            let x = m.entries@.subrange(0, i + 1);
            assert(x.drop_last() =~= m.entries@.subrange(0, i as int));
            assert(blocks_view(x).drop_last() == blocks_view(x.drop_last()));
        }
        n = cap_add(n, c);
        i = i + 1;
    }
    proof {
        assert(m.entries@.subrange(0, i as int) =~= m.entries@);
    }
    n
}

/// `e` with every read of register `reg` replaced by `rep`.
pub open spec fn subst(e: SExpr, reg: u8, rep: SExpr) -> SExpr
    decreases e,
{
    match e {
        SExpr::Register(r) => if r == reg { rep } else { e },
        SExpr::Immediate(_) => e,
        SExpr::Param(_) => e,
        SExpr::Add(a, b) => SExpr::Add(Box::new(subst(*a, reg, rep)), Box::new(subst(*b, reg, rep))),
        SExpr::Sub(a, b) => SExpr::Sub(Box::new(subst(*a, reg, rep)), Box::new(subst(*b, reg, rep))),
        SExpr::And(a, b) => SExpr::And(Box::new(subst(*a, reg, rep)), Box::new(subst(*b, reg, rep))),
        SExpr::Not(a) => SExpr::Not(Box::new(subst(*a, reg, rep))),
        SExpr::Neg(a) => SExpr::Neg(Box::new(subst(*a, reg, rep))),
        SExpr::Load(a) => SExpr::Load(Box::new(subst(*a, reg, rep))),
        SExpr::Call(t, args) => SExpr::Call(Box::new(subst(*t, reg, rep)), subst_all(args, reg, rep)),
        SExpr::LogicalAnd(a, c1, b, c2) => SExpr::LogicalAnd(
            Box::new(subst(*a, reg, rep)),
            c1,
            Box::new(subst(*b, reg, rep)),
            c2,
        ),
        SExpr::LogicalOr(a, c1, b, c2) => SExpr::LogicalOr(
            Box::new(subst(*a, reg, rep)),
            c1,
            Box::new(subst(*b, reg, rep)),
            c2,
        ),
    }
}

/// `subst` on each expression of a sequence.
pub open spec fn subst_all(s: Seq<SExpr>, reg: u8, rep: SExpr) -> Seq<SExpr>
    decreases s,
{
    if s.len() == 0 {
        Seq::empty()
    } else {
        subst_all(s.drop_last(), reg, rep).push(subst(s.last(), reg, rep))
    }
}

/// Builds the expression `expr` with every read of `target_reg` replaced by
/// `replacement`.
pub fn substitute_register(expr: &Expr, target_reg: u8, replacement: &Expr) -> (r: Expr)
    ensures
        r@ == subst(expr@, target_reg, replacement@),
    decreases expr,
{
    match expr {
        Expr::Register(r) => if *r == target_reg {
            replacement.duplicate()
        } else {
            Expr::Register(*r)
        },
        Expr::Immediate(v) => Expr::Immediate(*v),
        Expr::Param(i) => Expr::Param(*i),
        Expr::Add(l, r) => Expr::Add(
            Box::new(substitute_register(l, target_reg, replacement)),
            Box::new(substitute_register(r, target_reg, replacement)),
        ),
        Expr::Sub(l, r) => Expr::Sub(
            Box::new(substitute_register(l, target_reg, replacement)),
            Box::new(substitute_register(r, target_reg, replacement)),
        ),
        Expr::And(l, r) => Expr::And(
            Box::new(substitute_register(l, target_reg, replacement)),
            Box::new(substitute_register(r, target_reg, replacement)),
        ),
        Expr::Not(e) => Expr::Not(Box::new(substitute_register(e, target_reg, replacement))),
        Expr::Neg(e) => Expr::Neg(Box::new(substitute_register(e, target_reg, replacement))),
        Expr::Load(e) => Expr::Load(Box::new(substitute_register(e, target_reg, replacement))),
        Expr::Call(t, args) => Expr::Call(
            Box::new(substitute_register(t, target_reg, replacement)),
            substitute_register_all(args, target_reg, replacement),
        ),
        Expr::LogicalAnd(l, lcc, r, rcc) => Expr::LogicalAnd(
            Box::new(substitute_register(l, target_reg, replacement)),
            *lcc,
            Box::new(substitute_register(r, target_reg, replacement)),
            *rcc,
        ),
        Expr::LogicalOr(l, lcc, r, rcc) => Expr::LogicalOr(
            Box::new(substitute_register(l, target_reg, replacement)),
            *lcc,
            Box::new(substitute_register(r, target_reg, replacement)),
            *rcc,
        ),
    }
}

/// `substitute_register` on each expression of a vector.
fn substitute_register_all(v: &Vec<Expr>, target_reg: u8, replacement: &Expr) -> (r: Vec<Expr>)
    ensures
        exprs_view(r@) == subst_all(exprs_view(v@), target_reg, replacement@),
    decreases v,
{
    let mut out: Vec<Expr> = Vec::new();
    let mut i: usize = 0;
    while i < v.len()
        invariant
            i <= v@.len(),
            out@.len() == i,
            exprs_view(out@) == subst_all(exprs_view(v@.subrange(0, i as int)), target_reg, replacement@),
        decreases v@.len() - i,
    {
        proof {
            assert(decreases_to!(v => v[i as int]));
        }
        let e = substitute_register(&v[i], target_reg, replacement);
        let ghost o0 = out@;
        out.push(e);
        proof {
            let x = v@.subrange(0, i + 1);
            assert(x.drop_last() =~= v@.subrange(0, i as int));
            assert(exprs_view(x).drop_last() == exprs_view(x.drop_last()));
            assert(out@.drop_last() =~= o0);
        }
        i = i + 1;
    }
    proof {
        assert(v@.subrange(0, i as int) =~= v@);
    }
    out
}


/// A statement with the reads of `reg` replaced by `rep` in its own
/// expressions (those of assignments, stores, gotos with a condition, calls
/// and returns with a value); nested statements are left as they are.
pub open spec fn replace_s(st: SStmt, reg: u8, rep: SExpr) -> SStmt {
    SStmt {
        addr: st.addr,
        kind: match st.kind {
            SKind::Assign(d, e) => SKind::Assign(d, subst(e, reg, rep)),
            SKind::Store(a, v) => SKind::Store(subst(a, reg, rep), subst(v, reg, rep)),
            SKind::Goto(Some(c), cc, t) => SKind::Goto(Some(subst(c, reg, rep)), cc, t),
            SKind::Call(t, args) => SKind::Call(subst(t, reg, rep), subst_all(args, reg, rep)),
            SKind::Return(Some(e)) => SKind::Return(Some(subst(e, reg, rep))),
            _ => st.kind,
        },
    }
}

/// Builds `replace_s` of a statement.
fn replace_reg_in_stmt(stmt: &IRStmt, reg: u8, replacement: &Expr) -> (r: IRStmt)
    ensures
        r@ == replace_s(stmt@, reg, replacement@),
{
    let kind = match &stmt.kind {
        IRStmtKind::Assign(d, e) => IRStmtKind::Assign(*d, substitute_register(e, reg, replacement)),
        IRStmtKind::Store(a, v) => IRStmtKind::Store(
            substitute_register(a, reg, replacement),
            substitute_register(v, reg, replacement),
        ),
        IRStmtKind::Goto(Some(c), cc, t) => IRStmtKind::Goto(Some(substitute_register(c, reg, replacement)), *cc, *t),
        IRStmtKind::Call(t, args) => IRStmtKind::Call(
            substitute_register(t, reg, replacement),
            substitute_register_all(args, reg, replacement),
        ),
        IRStmtKind::Return(Some(e)) => IRStmtKind::Return(Some(substitute_register(e, reg, replacement))),
        _ => {
            let d = stmt.duplicate();
            d.kind
        },
    };
    IRStmt { addr: stmt.addr, kind }
}

/// Whether a statement assigns register `reg`.
pub open spec fn defines(st: SStmt, reg: u8) -> bool {
    st.kind matches SKind::Assign(d, _) && d == reg
}

/// Whether a statement is a loop.
pub open spec fn is_loop_kind(k: SKind) -> bool {
    k is While || k is DoWhile || k is For
}

/// The index of the first statement from `j` on that assigns `reg`, or the
/// length of `s`.
pub open spec fn scan_end(s: Seq<SStmt>, j: int, reg: u8) -> int
    decreases s.len() - j,
{
    if j >= s.len() {
        s.len() as int
    } else if defines(s[j], reg) {
        j
    } else {
        scan_end(s, j + 1, reg)
    }
}

/// The reads of `reg` in `s[a..b]`.
pub open spec fn uses_in(s: Seq<SStmt>, a: int, b: int, reg: u8) -> nat
    decreases b - a,
{
    if a >= b {
        0
    } else {
        uses_in(s, a, b - 1, reg) + count_s(s[b - 1], reg)
    }
}

/// The index of the first statement of `s[a..b]` that reads `reg`.
pub open spec fn first_use_in(s: Seq<SStmt>, a: int, b: int, reg: u8) -> Option<int>
    decreases b - a,
{
    if a >= b {
        None
    } else {
        match first_use_in(s, a, b - 1, reg) {
            Some(x) => Some(x),
            None => if count_s(s[b - 1], reg) > 0 { Some(b - 1) } else { None },
        }
    }
}

/// Whether some loop statement of `s[a..b]` reads `reg`.
pub open spec fn loop_use_in(s: Seq<SStmt>, a: int, b: int, reg: u8) -> bool {
    exists|q: int| a <= q < b && count_s(s[q], reg) > 0 && #[trigger] is_loop_kind(s[q].kind)
}

/// Where the assignment `s[i]` is inlined: it assigns a register other than
/// R6 and R7 that is read exactly once before it is assigned again, and not
/// in a loop; the result is the statement that reads it.
pub open spec fn inline_target(s: Seq<SStmt>, i: int) -> Option<int> {
    match s[i].kind {
        SKind::Assign(reg, _) => if reg == 6 || reg == 7 {
            None
        } else {
            let end = scan_end(s, i + 1, reg);
            if uses_in(s, i + 1, end, reg) == 1 && !loop_use_in(s, i + 1, end, reg) {
                first_use_in(s, i + 1, end, reg)
            } else {
                None
            }
        },
        _ => None,
    }
}

pub proof fn lemma_scan_end(s: Seq<SStmt>, j: int, reg: u8)
    requires
        0 <= j,
    ensures
        j <= scan_end(s, j, reg) || scan_end(s, j, reg) == s.len(),
        scan_end(s, j, reg) <= s.len(),
    decreases s.len() - j,
{
    if j < s.len() && !defines(s[j], reg) {
        lemma_scan_end(s, j + 1, reg);
    }
}

pub proof fn lemma_first_use_in(s: Seq<SStmt>, a: int, b: int, reg: u8)
    ensures
        first_use_in(s, a, b, reg) matches Some(x) ==> a <= x < b,
    decreases b - a,
{
    if a < b {
        lemma_first_use_in(s, a, b - 1, reg);
    }
}

pub proof fn lemma_inline_target(s: Seq<SStmt>, i: int)
    requires
        0 <= i < s.len(),
    ensures
        inline_target(s, i) matches Some(j) ==> i < j < s.len(),
{
    if let SKind::Assign(reg, _) = s[i].kind {
        lemma_scan_end(s, i + 1, reg);
        lemma_first_use_in(s, i + 1, scan_end(s, i + 1, reg), reg);
    }
}

/// The single-use propagation over a statement sequence from index `i` on:
/// each assignment with an `inline_target` is substituted into that
/// statement and removed; the result, and whether anything was removed.
pub open spec fn single_use_from(s: Seq<SStmt>, i: int) -> (Seq<SStmt>, bool)
    decreases s.len(), s.len() - i,
{
    if i < 0 || i >= s.len() {
        (s, false)
    } else {
        match inline_target(s, i) {
            Some(j) => {
                proof {
                    lemma_inline_target(s, i);
                }
                let reg = s[i].kind->Assign_0;
                let e = s[i].kind->Assign_1;
                let s2 = s.update(j, replace_s(s[j], reg, e)).remove(i);
                (single_use_from(s2, i).0, true)
            },
            None => single_use_from(s, i + 1),
        }
    }
}

pub proof fn lemma_single_use_from(s: Seq<SStmt>, i: int)
    ensures
        single_use_from(s, i).0.len() <= s.len(),
        single_use_from(s, i).1 ==> single_use_from(s, i).0.len() < s.len(),
        !single_use_from(s, i).1 ==> single_use_from(s, i).0 == s,
    decreases s.len(), s.len() - i,
{
    if 0 <= i < s.len() {
        match inline_target(s, i) {
            Some(j) => {
                lemma_inline_target(s, i);
                let reg = s[i].kind->Assign_0;
                let e = s[i].kind->Assign_1;
                let s2 = s.update(j, replace_s(s[j], reg, e)).remove(i);
                lemma_single_use_from(s2, i);
            },
            None => {
                lemma_single_use_from(s, i + 1);
            },
        }
    }
}

pub proof fn lemma_view_update(v: Seq<IRStmt>, j: int, x: IRStmt)
    requires
        0 <= j < v.len(),
    ensures
        stmts_view(v.update(j, x)) == stmts_view(v).update(j, stmt_view(x)),
{
    lemma_stmts_view(v);
    lemma_stmts_view(v.update(j, x));
    assert(stmts_view(v.update(j, x)) =~= stmts_view(v).update(j, stmt_view(x)));
}

pub proof fn lemma_view_remove(v: Seq<IRStmt>, i: int)
    requires
        0 <= i < v.len(),
    ensures
        stmts_view(v.remove(i)) == stmts_view(v).remove(i),
{
    lemma_stmts_view(v);
    lemma_stmts_view(v.remove(i));
    assert(stmts_view(v.remove(i)) =~= stmts_view(v).remove(i));
}

/// Inlines each assignment that is read exactly once (outside loops) before
/// its register is assigned again into the statement that reads it, and
/// drops the assignment; reports whether anything changed.
fn propagate_single_use_vars(stmts: &mut Vec<IRStmt>) -> (changed: bool)
    ensures
        (stmts_view(final(stmts)@), changed) == single_use_from(stmts_view(old(stmts)@), 0),
{
    let ghost target = single_use_from(stmts_view(stmts@), 0);
    let mut changed = false;
    let mut i: usize = 0;
    while i < stmts.len()
        invariant
            i <= stmts@.len(),
            single_use_from(stmts_view(stmts@), i as int).0 == target.0,
            (changed || single_use_from(stmts_view(stmts@), i as int).1) == target.1,
        decreases stmts@.len(), stmts@.len() - i,
    {
        let ghost s = stmts_view(stmts@);
        proof {
            lemma_stmts_view(stmts@);
        }
        let reg_opt: Option<u8> = match &stmts[i].kind {
            IRStmtKind::Assign(r, _) => Some(*r),
            _ => None,
        };
        if let Some(reg) = reg_opt {
            if reg != 6 && reg != 7 {
                let mut use_count: usize = 0;
                let mut use_stmt_idx: Option<usize> = None;
                let mut use_in_loop = false;
                let mut j: usize = i + 1;
                proof {
                    lemma_scan_end(s, i + 1, reg);
                }
                while j < stmts.len()
                    invariant
                        s == stmts_view(stmts@),
                        stmts_view(stmts@).len() == stmts@.len(),
                        forall|q: int| 0 <= q < stmts@.len() ==> #[trigger] stmts_view(stmts@)[q] == stmt_view(stmts@[q]),
                        i < j <= stmts@.len(),
                        scan_end(s, i + 1, reg) == scan_end(s, j as int, reg),
                        use_count == cap2(uses_in(s, i + 1, j as int, reg)),
                        use_stmt_idx matches Some(x) ==> first_use_in(s, i + 1, j as int, reg) == Some(x as int),
                        use_stmt_idx is None ==> first_use_in(s, i + 1, j as int, reg) is None,
                        use_in_loop == loop_use_in(s, i + 1, j as int, reg),
                    ensures
                        s == stmts_view(stmts@),
                        i < j <= stmts@.len(),
                        j < stmts@.len() ==> defines(s[j as int], reg),
                        scan_end(s, i + 1, reg) == scan_end(s, j as int, reg),
                        use_count == cap2(uses_in(s, i + 1, j as int, reg)),
                        use_stmt_idx matches Some(x) ==> first_use_in(s, i + 1, j as int, reg) == Some(x as int),
                        use_stmt_idx is None ==> first_use_in(s, i + 1, j as int, reg) is None,
                        use_in_loop == loop_use_in(s, i + 1, j as int, reg),
                    decreases stmts@.len() - j,
                {
                    if let IRStmtKind::Assign(d, _) = &stmts[j].kind {
                        if *d == reg {
                            proof {
                                assert(defines(s[j as int], reg));
                            }
                            break;
                        }
                    }
                    let is_loop = match &stmts[j].kind {
                        IRStmtKind::While(_, _, _) => true,
                        IRStmtKind::DoWhile(_, _, _) => true,
                        IRStmtKind::For(_, _, _, _, _) => true,
                        _ => false,
                    };
                    let uses = count_reg_uses_in_stmt(&stmts[j], reg);
                    proof {
                        assert(!defines(s[j as int], reg));
                        assert(is_loop == is_loop_kind(s[j as int].kind));
                    }
                    if uses > 0 {
                        use_count = cap_add(use_count, uses);
                        if use_stmt_idx.is_none() {
                            use_stmt_idx = Some(j);
                        }
                        if is_loop {
                            use_in_loop = true;
                        }
                    }
                    proof {
                        assert(uses_in(s, i + 1, j + 1, reg) == uses_in(s, i + 1, j as int, reg) + count_s(s[j as int], reg));
                        if use_in_loop && !loop_use_in(s, i + 1, j as int, reg) {
                            assert(count_s(s[j as int], reg) > 0 && is_loop_kind(s[j as int].kind));
                        }
                        if loop_use_in(s, i + 1, j + 1, reg) {
                            let q = choose|q: int| i + 1 <= q < j + 1 && count_s(s[q], reg) > 0 && #[trigger] is_loop_kind(s[q].kind);
                            if q < j {
                                assert(loop_use_in(s, i + 1, j as int, reg));
                            }
                        }
                    }
                    j = j + 1;
                }
                proof {
                    assert(scan_end(s, j as int, reg) == j);
                    lemma_first_use_in(s, i + 1, j as int, reg);
                }
                if use_count == 1 && !use_in_loop {
                    if let Some(use_idx) = use_stmt_idx {
                        let expr = match &stmts[i].kind {
                            IRStmtKind::Assign(_, e) => e.duplicate(),
                            _ => Expr::Immediate(0),
                        };
                        let new_stmt = replace_reg_in_stmt(&stmts[use_idx], reg, &expr);
                        proof {
                            assert(inline_target(s, i as int) == Some(use_idx as int));
                            lemma_inline_target(s, i as int);
                            lemma_view_update(stmts@, use_idx as int, new_stmt);
                        }
                        stmts.set(use_idx, new_stmt);
                        proof {
                            lemma_view_remove(stmts@, i as int);
                        }
                        stmts.remove(i);
                        changed = true;
                        continue;
                    }
                }
                proof {
                    assert(inline_target(s, i as int) is None);
                }
            }
        }
        i = i + 1;
    }
    proof {
        lemma_stmts_view(stmts@);
    }
    changed
}

/// One single-use propagation over each block.
pub open spec fn single_use_once(b: Seq<(u16, Seq<SStmt>)>) -> Seq<(u16, Seq<SStmt>)> {
    Seq::new(b.len(), |k: int| (b[k].0, single_use_from(b[k].1, 0).0))
}

/// Whether the propagation changes some block.
pub open spec fn single_use_changes(b: Seq<(u16, Seq<SStmt>)>) -> bool {
    exists|k: int| 0 <= k < b.len() && #[trigger] single_use_from(b[k].1, 0).1
}

/// The number of statements in the blocks (nested ones not counted).
pub open spec fn stmt_count(b: Seq<(u16, Seq<SStmt>)>) -> nat
    decreases b.len(),
{
    if b.len() == 0 {
        0
    } else {
        stmt_count(b.drop_last()) + b.last().1.len()
    }
}

pub proof fn lemma_single_use_once(b: Seq<(u16, Seq<SStmt>)>)
    ensures
        stmt_count(single_use_once(b)) <= stmt_count(b),
        single_use_changes(b) ==> stmt_count(single_use_once(b)) < stmt_count(b),
        !single_use_changes(b) ==> single_use_once(b) == b,
    decreases b.len(),
{
    if b.len() > 0 {
        let p = b.drop_last();
        lemma_single_use_once(p);
        lemma_single_use_from(b.last().1, 0);
        assert(single_use_once(b).drop_last() =~= single_use_once(p));
        if single_use_changes(b) {
            let k = choose|k: int| 0 <= k < b.len() && #[trigger] single_use_from(b[k].1, 0).1;
            if k < b.len() - 1 {
                assert(single_use_from(p[k].1, 0).1);
            }
        } else {
            assert forall|k: int| 0 <= k < b.len() implies #[trigger] single_use_once(b)[k] == b[k] by {
                lemma_single_use_from(b[k].1, 0);
            }
            assert(single_use_once(b) =~= b);
        }
    }
}

/// Single-use propagation over all blocks until a round changes nothing.
pub open spec fn single_use_fix(b: Seq<(u16, Seq<SStmt>)>) -> Seq<(u16, Seq<SStmt>)>
    decreases stmt_count(b),
{
    if single_use_changes(b) {
        proof {
            lemma_single_use_once(b);
        }
        single_use_fix(single_use_once(b))
    } else {
        b
    }
}

/// One round of single-use propagation over every block.
fn propagate_round(blocks: &mut AddrMap<Vec<IRStmt>>) -> (changed: bool)
    ensures
        blocks_view(final(blocks).entries@) == single_use_once(blocks_view(old(blocks).entries@)),
        changed == single_use_changes(blocks_view(old(blocks).entries@)),
        final(blocks).key_seq() == old(blocks).key_seq(),
{
    let ghost b0 = blocks_view(old(blocks).entries@);
    let mut entries: Vec<(u16, Vec<IRStmt>)> = Vec::new();
    let mut changed = false;
    let mut i: usize = 0;
    while i < blocks.entries.len()
        invariant
            i <= blocks.entries@.len(),
            entries@.len() == i,
            b0 == blocks_view(blocks.entries@),
            forall|k: int| 0 <= k < i ==> #[trigger] entries@[k].0 == blocks.entries@[k].0,
            forall|k: int| 0 <= k < i ==> stmts_view(#[trigger] entries@[k].1@) == single_use_from(b0[k].1, 0).0,
            changed == exists|k: int| 0 <= k < i && #[trigger] single_use_from(b0[k].1, 0).1,
        decreases blocks.entries@.len() - i,
    {
        proof {
            lemma_blocks_view(blocks.entries@);
        }
        let k = blocks.entries[i].0;
        let mut v = duplicate_stmts(&blocks.entries[i].1);
        let c = propagate_single_use_vars(&mut v);
        let ghost e0 = entries@;
        let ghost ch0 = changed;
        entries.push((k, v));
        changed = c || changed;
        proof {
            assert(b0[i as int].1 == stmts_view(blocks.entries@[i as int].1@));
            assert(entries@[i as int].1 == v);
            assert forall|q: int| 0 <= q < i + 1 implies stmts_view(#[trigger] entries@[q].1@) == single_use_from(b0[q].1, 0).0 by {
                if q < i {
                    assert(entries@[q] == e0[q]);
                }
            }
            if c {
                assert(single_use_from(b0[i as int].1, 0).1);
            } else if ch0 {
                let w = choose|q: int| 0 <= q < i && #[trigger] single_use_from(b0[q].1, 0).1;
                assert(0 <= w < i + 1 && single_use_from(b0[w].1, 0).1);
            }
        }
        i = i + 1;
    }
    let ghost old_keys = blocks.key_seq();
    let ghost old_entries = blocks.entries@;
    blocks.entries = entries;
    proof {
        lemma_blocks_view(old_entries);
        lemma_blocks_view(blocks.entries@);
        assert(blocks_view(blocks.entries@) =~= single_use_once(b0));
        assert(blocks.key_seq() =~= old_keys);
    }
    changed
}

/// Inlines single-use assignments in every block, round after round, until a
/// round changes nothing.
pub fn propagate_variables(blocks: &mut AddrMap<Vec<IRStmt>>)
    ensures
        blocks_view(final(blocks).entries@) == single_use_fix(blocks_view(old(blocks).entries@)),
        final(blocks).key_seq() == old(blocks).key_seq(),
{
    let ghost target = single_use_fix(blocks_view(blocks.entries@));
    let ghost keys = blocks.key_seq();
    loop
        invariant_except_break
            single_use_fix(blocks_view(blocks.entries@)) == target,
            blocks.key_seq() == keys,
        ensures
            blocks_view(blocks.entries@) == target,
            blocks.key_seq() == keys,
        decreases stmt_count(blocks_view(blocks.entries@)),
    {
        proof {
            lemma_single_use_once(blocks_view(blocks.entries@));
        }
        let changed = propagate_round(blocks);
        if !changed {
            break;
        }
    }
}


/// Whether register `reg` is live on entry to the instruction at `a`; a
/// register counts as live where nothing is known of the address.
pub open spec fn live_at(live: Map<u16, LivenessInfo>, a: u16, reg: u8) -> bool {
    if live.dom().contains(a) {
        live[a].live_in & reg_bit(reg) != 0
    } else {
        true
    }
}

/// Appends one statement to the output of the goto transformation: a
/// conditional goto without an expression that follows an assignment takes
/// the assigned expression as its condition, consuming the assignment if the
/// register is dead at the goto, and reading the register otherwise.
pub open spec fn goto_step(out: Seq<SStmt>, st: SStmt, live: Map<u16, LivenessInfo>) -> Seq<SStmt> {
    match st.kind {
        SKind::Goto(None, cc, t) => if cc != 0 && cc != 7 && out.len() > 0 {
            match out.last().kind {
                SKind::Assign(reg, e) => if live_at(live, st.addr, reg) {
                    out.push(SStmt { addr: st.addr, kind: SKind::Goto(Some(SExpr::Register(reg)), cc, t) })
                } else {
                    out.drop_last().push(SStmt { addr: st.addr, kind: SKind::Goto(Some(e), cc, t) })
                },
                _ => out.push(st),
            }
        } else {
            out.push(st)
        },
        _ => out.push(st),
    }
}

/// The goto transformation of a statement sequence.
pub open spec fn goto_fold(s: Seq<SStmt>, live: Map<u16, LivenessInfo>) -> Seq<SStmt>
    decreases s.len(),
{
    if s.len() == 0 {
        Seq::empty()
    } else {
        goto_step(goto_fold(s.drop_last(), live), s.last(), live)
    }
}

/// Every assignment of the sequence assigns a register below 8.
pub open spec fn assign_regs_ok(s: Seq<SStmt>) -> bool {
    forall|i: int| 0 <= i < s.len() ==> (#[trigger] s[i].kind matches SKind::Assign(r, _) ==> r < 8)
}

/// The goto transformation of one block.
fn goto_block(stmts: &Vec<IRStmt>, instr_liveness: &AddrMap<LivenessInfo>) -> (r: Vec<IRStmt>)
    requires
        instr_liveness.wf(),
        assign_regs_ok(stmts_view(stmts@)),
    ensures
        stmts_view(r@) == goto_fold(stmts_view(stmts@), instr_liveness.map()),
{
    let ghost s = stmts_view(stmts@);
    let ghost live = instr_liveness.map();
    proof {
        lemma_stmts_view(stmts@);
    }
    let mut new_stmts: Vec<IRStmt> = Vec::new();
    let mut i: usize = 0;
    while i < stmts.len()
        invariant
            i <= stmts@.len(),
            s == stmts_view(stmts@),
            s.len() == stmts@.len(),
            forall|q: int| 0 <= q < stmts@.len() ==> #[trigger] s[q] == stmt_view(stmts@[q]),
            instr_liveness.wf(),
            live == instr_liveness.map(),
            assign_regs_ok(s),
            stmts_view(new_stmts@) == goto_fold(s.subrange(0, i as int), live),
            assign_regs_ok(stmts_view(new_stmts@)),
        decreases stmts@.len() - i,
    {
        let ghost out0 = stmts_view(new_stmts@);
        proof {
            lemma_stmts_view(new_stmts@);
            let x = s.subrange(0, i + 1);
            assert(x.drop_last() =~= s.subrange(0, i as int));
            assert(x.last() == s[i as int]);
        }
        let stmt = &stmts[i];
        let mut handled = false;
        if let IRStmtKind::Goto(None, cc, target) = &stmt.kind {
            let cc = *cc;
            let target = *target;
            if cc != 0 && cc != 7 && new_stmts.len() > 0 {
                let last_idx = new_stmts.len() - 1;
                let assigned: Option<(u8, Expr)> = match &new_stmts[last_idx].kind {
                    IRStmtKind::Assign(reg, expr) => Some((*reg, expr.duplicate())),
                    _ => None,
                };
                if let Some((reg, expr)) = assigned {
                    proof {
                        assert(out0[last_idx as int] == stmt_view(new_stmts@[last_idx as int]));
                        assert(out0.last().kind matches SKind::Assign(r, _) && r == reg);
                        assert(reg < 8);
                    }
                    let is_live = match instr_liveness.get(stmt.addr) {
                        Some(info) => (info.live_in & (1u8 << reg)) != 0,
                        None => true,
                    };
                    proof {
                        assert(is_live == live_at(live, stmt.addr, reg));
                    }
                    if !is_live {
                        new_stmts.pop();
                        new_stmts.push(IRStmt { addr: stmt.addr, kind: IRStmtKind::Goto(Some(expr), cc, target) });
                    } else {
                        new_stmts.push(IRStmt {
                            addr: stmt.addr,
                            kind: IRStmtKind::Goto(Some(Expr::Register(reg)), cc, target),
                        });
                    }
                    handled = true;
                }
            }
        }
        if !handled {
            new_stmts.push(stmt.duplicate());
        }
        proof {
            lemma_stmts_view(new_stmts@);
            assert(stmts_view(new_stmts@) =~= goto_step(out0, s[i as int], live));
        }
        i = i + 1;
    }
    proof {
        assert(s.subrange(0, i as int) =~= s);
    }
    new_stmts
}

/// The goto transformation of every block.
pub open spec fn goto_blocks(b: Seq<(u16, Seq<SStmt>)>, live: Map<u16, LivenessInfo>) -> Seq<(u16, Seq<SStmt>)> {
    Seq::new(b.len(), |k: int| (b[k].0, goto_fold(b[k].1, live)))
}

/// Gives each conditional goto without a condition the expression of the
/// assignment just before it (see `goto_step`), in every block.
pub fn apply_goto_transformation(blocks: AddrMap<Vec<IRStmt>>, instr_liveness: &AddrMap<LivenessInfo>) -> (r:
    AddrMap<Vec<IRStmt>>)
    requires
        instr_liveness.wf(),
        forall|k: int| 0 <= k < blocks.entries@.len() ==> assign_regs_ok(#[trigger] blocks_view(blocks.entries@)[k].1),
    ensures
        blocks_view(r.entries@) == goto_blocks(blocks_view(blocks.entries@), instr_liveness.map()),
        r.key_seq() == blocks.key_seq(),
{
    let ghost b0 = blocks_view(blocks.entries@);
    proof {
        lemma_blocks_view(blocks.entries@);
    }
    let mut entries: Vec<(u16, Vec<IRStmt>)> = Vec::new();
    let mut i: usize = 0;
    while i < blocks.entries.len()
        invariant
            i <= blocks.entries@.len(),
            entries@.len() == i,
            instr_liveness.wf(),
            b0 == blocks_view(blocks.entries@),
            b0.len() == blocks.entries@.len(),
            forall|k: int| 0 <= k < blocks.entries@.len() ==> assign_regs_ok(#[trigger] b0[k].1),
            forall|k: int| 0 <= k < i ==> #[trigger] entries@[k].0 == blocks.entries@[k].0,
            forall|k: int| 0 <= k < i ==> stmts_view(#[trigger] entries@[k].1@) == goto_fold(b0[k].1, instr_liveness.map()),
        decreases blocks.entries@.len() - i,
    {
        proof {
            lemma_blocks_view(blocks.entries@);
            assert(b0[i as int].1 == stmts_view(blocks.entries@[i as int].1@));
        }
        let k = blocks.entries[i].0;
        let v = goto_block(&blocks.entries[i].1, instr_liveness);
        let ghost e0 = entries@;
        entries.push((k, v));
        proof {
            assert forall|q: int| 0 <= q < i + 1 implies stmts_view(#[trigger] entries@[q].1@) == goto_fold(b0[q].1, instr_liveness.map()) by {
                if q < i {
                    assert(entries@[q] == e0[q]);
                }
            }
        }
        i = i + 1;
    }
    let r = AddrMap { entries };
    proof {
        lemma_blocks_view(r.entries@);
        assert(blocks_view(r.entries@) =~= goto_blocks(b0, instr_liveness.map()));
        assert(r.key_seq() =~= blocks.key_seq());
    }
    r
}

/// The goto transformation drops no statement but an assignment to a
/// register that is dead at the goto after it: the new output is the old one
/// followed by one statement at the address of the statement added, or, where
/// the old output ends with an assignment of a register not live at that
/// address, the old output without that assignment followed by it. So an
/// assignment to a register that is live at the next goto is always kept.
/// The statement added is the one given, or a conditional goto with the same
/// code and target that tests the assigned register or the expression
/// assigned to it.
pub proof fn law_goto_keeps_live_assignments(out: Seq<SStmt>, st: SStmt, live: Map<u16, LivenessInfo>)
    ensures
        goto_step(out, st, live).len() > 0,
        goto_step(out, st, live).last().addr == st.addr,
        goto_step(out, st, live).drop_last() == out || (out.len() > 0 && (out.last().kind matches SKind::Assign(reg, _)
            && !live_at(live, st.addr, reg)) && goto_step(out, st, live).drop_last() == out.drop_last()),
        out.len() > 0 && (out.last().kind matches SKind::Assign(reg, _) && live_at(live, st.addr, reg))
            ==> goto_step(out, st, live).drop_last() == out,
        goto_step(out, st, live).last() == st || (st.kind matches SKind::Goto(None, cc, t) && out.len() > 0 && (
        out.last().kind matches SKind::Assign(reg, e) && (goto_step(out, st, live).last().kind == SKind::Goto(
            Some(SExpr::Register(reg)),
            cc,
            t,
        ) || goto_step(out, st, live).last().kind == SKind::Goto(Some(e), cc, t)))),
{
    let r = goto_step(out, st, live);
    assert(out.push(r.last()).drop_last() =~= out);
    if out.len() > 0 {
        assert(out.drop_last().push(r.last()).drop_last() =~= out.drop_last());
    }
}

} // verus!
