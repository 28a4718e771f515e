use vstd::prelude::*;
use crate::addr_map::AddrMap;
use crate::ir::{
    Expr, IRStmt, IRStmtKind, SExpr, SKind, SStmt, blocks_view, expr_view, exprs_view, opt_view, stmt_view,
    stmts_view, lemma_blocks_view, lemma_exprs_view, lemma_stmts_view, duplicate_exprs, duplicate_opt,
    duplicate_stmts,
};
use crate::refine::{find_block_any, put_block};
use crate::structure::{bfind, lemma_bfind};
use crate::ir::kind_view;
use crate::conditionals::ints;
use crate::semantics::{arith_only, eval16};

verus! {

/// Whether `e` is register `r`.
pub open spec fn is_reg_s(e: SExpr, r: u8) -> bool {
    e matches SExpr::Register(x) && x == r
}

/// Whether `e` is the immediate `v`.
pub open spec fn is_imm_s(e: SExpr, v: i16) -> bool {
    e matches SExpr::Immediate(x) && x == v
}

/// Whether an expression is register `reg`.
fn is_reg(expr: &Expr, reg: u8) -> (b: bool)
    ensures
        b == is_reg_s(expr@, reg),
{
    match expr {
        Expr::Register(r) => *r == reg,
        _ => false,
    }
}

/// Whether an expression is the immediate `val`.
fn is_imm(expr: &Expr, val: i16) -> (b: bool)
    ensures
        b == is_imm_s(expr@, val),
{
    match expr {
        Expr::Immediate(v) => *v == val,
        _ => false,
    }
}

/// The offset of a frame-pointer relative address `R5 + off` (either order).
pub open spec fn fp_offset(inner: SExpr) -> Option<i16> {
    match inner {
        SExpr::Add(l, r) => if is_reg_s(*l, 5) {
            match *r {
                SExpr::Immediate(off) => Some(off),
                _ => None,
            }
        } else if is_reg_s(*r, 5) {
            match *l {
                SExpr::Immediate(off) => Some(off),
                _ => None,
            }
        } else {
            None
        },
        _ => None,
    }
}

/// Loads from `R5 + off` with `off >= 4` as parameter `off - 4`, in an
/// expression (not inside `&&`, `||` or loads that are parameters).
pub open spec fn rp(e: SExpr) -> SExpr
    decreases e,
{
    match e {
        SExpr::Load(inner) => match fp_offset(*inner) {
            Some(off) => if off >= 4 {
                SExpr::Param((off - 4) as u8)
            } else {
                SExpr::Load(Box::new(rp(*inner)))
            },
            None => SExpr::Load(Box::new(rp(*inner))),
        },
        SExpr::Add(a, b) => SExpr::Add(Box::new(rp(*a)), Box::new(rp(*b))),
        SExpr::Sub(a, b) => SExpr::Sub(Box::new(rp(*a)), Box::new(rp(*b))),
        SExpr::And(a, b) => SExpr::And(Box::new(rp(*a)), Box::new(rp(*b))),
        SExpr::Not(a) => SExpr::Not(Box::new(rp(*a))),
        SExpr::Neg(a) => SExpr::Neg(Box::new(rp(*a))),
        SExpr::Call(t, args) => SExpr::Call(Box::new(rp(*t)), rp_all(args)),
        _ => e,
    }
}

/// `rp` of each expression.
pub open spec fn rp_all(s: Seq<SExpr>) -> Seq<SExpr>
    decreases s,
{
    if s.len() == 0 {
        Seq::empty()
    } else {
        rp_all(s.drop_last()).push(rp(s.last()))
    }
}

/// Computes `fp_offset`.
fn fp_offset_of(inner: &Expr) -> (r: Option<i16>)
    ensures
        r == fp_offset(inner@),
{
    match inner {
        Expr::Add(lhs, rhs) => {
            proof {
                assert(inner@ == SExpr::Add(Box::new(expr_view(**lhs)), Box::new(expr_view(**rhs))));
            }
            if is_reg(lhs, 5) {
                match &**rhs {
                    Expr::Immediate(o) => {
                        proof {
                            assert(expr_view(**rhs) == SExpr::Immediate(*o));
                        }
                        Some(*o)
                    },
                    _ => None,
                }
            } else if is_reg(rhs, 5) {
                match &**lhs {
                    Expr::Immediate(o) => {
                        proof {
                            assert(expr_view(**lhs) == SExpr::Immediate(*o));
                        }
                        Some(*o)
                    },
                    _ => None,
                }
            } else {
                None
            }
        },
        _ => None,
    }
}

/// Builds `rp` of an expression.
fn replace_params_in_expr(expr: &Expr) -> (r: Expr)
    ensures
        r@ == rp(expr@),
    decreases expr,
{
    match expr {
        Expr::Load(inner) => {
            let off = fp_offset_of(inner);
            if let Some(o) = off {
                if o >= 4 {
                    return Expr::Param(#[verifier::truncate] ((o - 4) as u8));
                }
            }
            Expr::Load(Box::new(replace_params_in_expr(inner)))
        },
        Expr::Add(a, b) => Expr::Add(Box::new(replace_params_in_expr(a)), Box::new(replace_params_in_expr(b))),
        Expr::Sub(a, b) => Expr::Sub(Box::new(replace_params_in_expr(a)), Box::new(replace_params_in_expr(b))),
        Expr::And(a, b) => Expr::And(Box::new(replace_params_in_expr(a)), Box::new(replace_params_in_expr(b))),
        Expr::Not(a) => Expr::Not(Box::new(replace_params_in_expr(a))),
        Expr::Neg(a) => Expr::Neg(Box::new(replace_params_in_expr(a))),
        Expr::Call(t, args) => Expr::Call(Box::new(replace_params_in_expr(t)), replace_params_all(args)),
        _ => expr.duplicate(),
    }
}

/// `replace_params_in_expr` of each expression.
fn replace_params_all(v: &Vec<Expr>) -> (r: Vec<Expr>)
    ensures
        exprs_view(r@) == rp_all(exprs_view(v@)),
    decreases v,
{
    let mut out: Vec<Expr> = Vec::new();
    let mut i: usize = 0;
    while i < v.len()
        invariant
            i <= v@.len(),
            exprs_view(out@) == rp_all(exprs_view(v@.subrange(0, i as int))),
        decreases v@.len() - i,
    {
        proof {
            assert(decreases_to!(v => v[i as int]));
        }
        let e = replace_params_in_expr(&v[i]);
        let ghost o0 = out@;
        out.push(e);
        proof {
            let x = v@.subrange(0, i + 1);
            assert(x.drop_last() =~= v@.subrange(0, i as int));
            assert(exprs_view(x).drop_last() == exprs_view(x.drop_last()));
            assert(out@.drop_last() =~= o0);
        }
        i = i + 1;
    }
    proof {
        assert(v@.subrange(0, i as int) =~= v@);
    }
    out
}

/// Whether a statement sets the frame pointer from the stack pointer:
/// `R5 = R6` or `R5 = R6 + x` (either order).
pub open spec fn fp_set(k: SKind) -> bool {
    match k {
        SKind::Assign(d, e) => d == 5 && (is_reg_s(e, 6) || match e {
            SExpr::Add(l, r) => is_reg_s(*l, 6) || is_reg_s(*r, 6),
            _ => false,
        }),
        _ => false,
    }
}

/// Whether a statement loads a parameter: `Rd = mem[R5 + off]` (either
/// order) with `off >= 4`, into a register other than R5, R6, R7.
pub open spec fn param_load(k: SKind) -> bool {
    match k {
        SKind::Assign(d, SExpr::Load(a)) => d != 5 && d != 6 && d != 7 && match *a {
            SExpr::Add(l, r) => (is_reg_s(*l, 5) && (*r matches SExpr::Immediate(off) && off >= 4)) || (is_reg_s(*r, 5)
                && (*l matches SExpr::Immediate(off) && off >= 4)),
            _ => false,
        },
        _ => false,
    }
}

/// Whether a statement stores to the top of the stack: `mem[R6] = ..` or
/// `mem[R6 + x] = ..`.
pub open spec fn stack_store(k: SKind) -> bool {
    match k {
        SKind::Store(a, _) => is_reg_s(a, 6) || match a {
            SExpr::Add(l, _) => is_reg_s(*l, 6),
            _ => false,
        },
        _ => false,
    }
}

/// The index of the first statement from the `i`th on that sets the frame
/// pointer, or -1.
pub open spec fn fp_from(s: Seq<SStmt>, i: int) -> int
    decreases s.len() - i,
{
    if i < 0 || i >= s.len() {
        -1
    } else if fp_set(s[i].kind) {
        i
    } else {
        fp_from(s, i + 1)
    }
}

/// Whether index `i` is the frame pointer setup at `fp` or the clearing of
/// R5 just before it.
pub open spec fn in_setup(s: Seq<SStmt>, fp: int, i: int) -> bool {
    i == fp || (fp > 0 && i == fp - 1 && (s[fp - 1].kind matches SKind::Assign(d, _) && d == 5))
}

/// The index of the first statement from the `i`th on (outside the setup)
/// that starts the function's code: a parameter load or a goto.
pub open spec fn code_from(s: Seq<SStmt>, fp: int, i: int) -> int
    decreases s.len() - i,
{
    if i < 0 || i >= s.len() {
        s.len() as int
    } else if !in_setup(s, fp, i) && (param_load(s[i].kind) || s[i].kind is Goto) {
        i
    } else {
        code_from(s, fp, i + 1)
    }
}

/// Whether the prologue removes the `i`th statement: the setup, and, before
/// the code starts, stack pointer adjustments and stack stores.
pub open spec fn in_prologue(s: Seq<SStmt>, fp: int, code: int, i: int) -> bool {
    in_setup(s, fp, i) || (i < code && ((s[i].kind matches SKind::Assign(d, _) && d == 6) || stack_store(s[i].kind)))
}

/// The first `n` statements without those of the prologue.
pub open spec fn drop_prologue(s: Seq<SStmt>, fp: int, code: int, n: int) -> Seq<SStmt>
    decreases n,
{
    if n <= 0 {
        Seq::empty()
    } else {
        let r = drop_prologue(s, fp, code, n - 1);
        if in_prologue(s, fp, code, n - 1) {
            r
        } else {
            r.push(s[n - 1])
        }
    }
}

/// The entry block without its prologue, where it sets up a frame pointer.
pub open spec fn prologue_stmts(s: Seq<SStmt>) -> Seq<SStmt> {
    let fp = fp_from(s, 0);
    if fp >= 0 {
        drop_prologue(s, fp, code_from(s, fp, 0), s.len() as int)
    } else {
        s
    }
}

/// The blocks with the prologue of the entry block removed.
pub open spec fn prologue(b: Seq<(u16, Seq<SStmt>)>, entry: u16) -> Seq<(u16, Seq<SStmt>)> {
    let i = bfind(b, entry, 0);
    if i >= 0 {
        b.update(i, (entry, prologue_stmts(b[i].1)))
    } else {
        b
    }
}

/// Whether an expression loads from the top of the stack.
pub open spec fn stack_load(e: SExpr) -> bool {
    match e {
        SExpr::Load(a) => is_reg_s(*a, 6) || match *a {
            SExpr::Add(l, _) => is_reg_s(*l, 6),
            _ => false,
        },
        _ => false,
    }
}

/// Whether an address is the return value slot `R5 + 3` (either order).
pub open spec fn retval_addr(a: SExpr) -> bool {
    match a {
        SExpr::Add(l, r) => (is_reg_s(*l, 5) && is_imm_s(*r, 3)) || (is_imm_s(*l, 3) && is_reg_s(*r, 5)),
        _ => false,
    }
}

/// The backward walk over the epilogue from index `i`: stack pointer
/// adjustments, restores from the stack and return value stores belong to
/// it; the result is the index where it stops (-1 at the start) and the
/// value of the earliest return value store.
pub open spec fn epilogue_walk(s: Seq<SStmt>, i: int, rv: Option<SExpr>) -> (int, Option<SExpr>)
    decreases i + 1,
{
    if i < 0 || i >= s.len() {
        (i, rv)
    } else {
        match s[i].kind {
            SKind::Assign(d, e) => if d == 6 || stack_load(e) {
                epilogue_walk(s, i - 1, rv)
            } else {
                (i, rv)
            },
            SKind::Store(a, v) => if retval_addr(a) {
                epilogue_walk(s, i - 1, Some(v))
            } else {
                (i, rv)
            },
            _ => (i, rv),
        }
    }
}

/// A block ending in a return without its epilogue, the return carrying the
/// stored return value if there is one.
pub open spec fn epilogue_stmts(s: Seq<SStmt>) -> Seq<SStmt> {
    if s.len() >= 2 && s.last().kind is Return {
        let (stop, rv) = epilogue_walk(s, s.len() - 2, None);
        let last = match rv {
            Some(v) => SStmt { addr: s.last().addr, kind: SKind::Return(Some(v)) },
            None => s.last(),
        };
        s.subrange(0, stop + 1).push(last)
    } else {
        s
    }
}

/// `epilogue_stmts` of every block.
pub open spec fn epilogue_blocks(b: Seq<(u16, Seq<SStmt>)>) -> Seq<(u16, Seq<SStmt>)> {
    Seq::new(b.len(), |k: int| (b[k].0, epilogue_stmts(b[k].1)))
}

/// `rp` of an optional expression.
pub open spec fn rp_opt(o: Option<SExpr>) -> Option<SExpr> {
    match o {
        Some(e) => Some(rp(e)),
        None => None,
    }
}

/// Parameter replacement in a statement's own expressions (the arguments
/// of calls, and the initialisation and increment of `For` loops, are left
/// as they are).
pub open spec fn param_top(s: SStmt) -> SStmt {
    SStmt {
        addr: s.addr,
        kind: match s.kind {
            SKind::Assign(d, e) => SKind::Assign(d, rp(e)),
            SKind::Store(a, v) => SKind::Store(rp(a), rp(v)),
            SKind::Goto(c, cc, t) => SKind::Goto(rp_opt(c), cc, t),
            SKind::Call(e, args) => SKind::Call(rp(e), args),
            SKind::Return(c) => SKind::Return(rp_opt(c)),
            SKind::If(c, cc, t, f) => SKind::If(rp_opt(c), cc, t, f),
            SKind::DoWhile(c, cc, b) => SKind::DoWhile(rp_opt(c), cc, b),
            SKind::While(c, cc, b) => SKind::While(rp_opt(c), cc, b),
            SKind::For(i, c, cc, n, b) => SKind::For(i, rp_opt(c), cc, n, b),
            _ => s.kind,
        },
    }
}

/// Parameter replacement in the assignments and stores of a branch.
pub open spec fn vec_params(ss: Seq<SStmt>) -> Seq<SStmt> {
    Seq::new(
        ss.len(),
        |i: int|
            match ss[i].kind {
                SKind::Assign(d, e) => SStmt { addr: ss[i].addr, kind: SKind::Assign(d, rp(e)) },
                SKind::Store(a, v) => SStmt { addr: ss[i].addr, kind: SKind::Store(rp(a), rp(v)) },
                _ => ss[i],
            },
    )
}

/// `param_top` of every statement of every block.
pub open spec fn params_blocks(b: Seq<(u16, Seq<SStmt>)>) -> Seq<(u16, Seq<SStmt>)> {
    Seq::new(b.len(), |k: int| (b[k].0, Seq::new(b[k].1.len(), |j: int| param_top(b[k].1[j]))))
}

/// The callee pass over a block map: nested loop bodies are processed as
/// maps of their own (with no entry block, so no prologue), the branches of
/// `If`s get parameter replacement in their assignments and stores; then
/// the prologue of the entry block and the epilogues before returns are
/// removed, and parameters replaced in the statements' own expressions.
pub open spec fn callee(b: Seq<(u16, Seq<SStmt>)>, entry: u16) -> Seq<(u16, Seq<SStmt>)>
    decreases b, 1int,
{
    params_blocks(epilogue_blocks(prologue(callee_nested_blocks(b), entry)))
}

/// `callee_nested_stmts` of every block.
pub open spec fn callee_nested_blocks(b: Seq<(u16, Seq<SStmt>)>) -> Seq<(u16, Seq<SStmt>)>
    decreases b, 0int,
{
    if b.len() == 0 {
        Seq::empty()
    } else {
        callee_nested_blocks(b.drop_last()).push((b.last().0, callee_nested_stmts(b.last().1)))
    }
}

/// `callee_nested` of every statement.
pub open spec fn callee_nested_stmts(ss: Seq<SStmt>) -> Seq<SStmt>
    decreases ss, 0int,
{
    if ss.len() == 0 {
        Seq::empty()
    } else {
        callee_nested_stmts(ss.drop_last()).push(callee_nested(ss.last()))
    }
}

/// The nested part of the callee pass for one statement.
pub open spec fn callee_nested(s: SStmt) -> SStmt
    decreases s, 0int,
{
    match s.kind {
        SKind::DoWhile(c, cc, body) => SStmt { addr: s.addr, kind: SKind::DoWhile(c, cc, callee(body, 0xFFFF)) },
        SKind::While(c, cc, body) => SStmt { addr: s.addr, kind: SKind::While(c, cc, callee(body, 0xFFFF)) },
        SKind::For(i, c, cc, n, body) => SStmt { addr: s.addr, kind: SKind::For(i, c, cc, n, callee(body, 0xFFFF)) },
        SKind::If(c, cc, t, f) => SStmt {
            addr: s.addr,
            kind: SKind::If(
                c,
                cc,
                vec_params(t),
                match f {
                    Some(fs) => Some(vec_params(fs)),
                    None => None,
                },
            ),
        },
        _ => s,
    }
}

/// Computes `fp_set`.
fn fp_set_of(k: &IRStmtKind) -> (b: bool)
    ensures
        b == fp_set(kind_view(*k)),
{
    match k {
        IRStmtKind::Assign(d, e) => {
            if *d != 5 {
                return false;
            }
            if is_reg(e, 6) {
                return true;
            }
            match e {
                Expr::Add(l, r) => {
                    proof {
                        assert(expr_view(*e) == SExpr::Add(Box::new(expr_view(**l)), Box::new(expr_view(**r))));
                    }
                    is_reg(l, 6) || is_reg(r, 6)
                },
                _ => false,
            }
        },
        _ => false,
    }
}

/// Whether `x` is an immediate of at least 4.
fn imm_at_least_4(x: &Expr) -> (b: bool)
    ensures
        b == (x@ matches SExpr::Immediate(off) && off >= 4),
{
    match x {
        Expr::Immediate(off) => *off >= 4,
        _ => false,
    }
}

/// Computes `param_load`.
fn param_load_of(k: &IRStmtKind) -> (b: bool)
    ensures
        b == param_load(kind_view(*k)),
{
    match k {
        IRStmtKind::Assign(d, Expr::Load(a)) => {
            if *d == 5 || *d == 6 || *d == 7 {
                return false;
            }
            match &**a {
                Expr::Add(l, r) => {
                    proof {
                        assert(expr_view(**a) == SExpr::Add(Box::new(expr_view(**l)), Box::new(expr_view(**r))));
                    }
                    (is_reg(l, 5) && imm_at_least_4(r)) || (is_reg(r, 5) && imm_at_least_4(l))
                },
                _ => false,
            }
        },
        _ => false,
    }
}

/// Computes `stack_store`.
fn stack_store_of(k: &IRStmtKind) -> (b: bool)
    ensures
        b == stack_store(kind_view(*k)),
{
    match k {
        IRStmtKind::Store(a, _) => {
            if is_reg(a, 6) {
                return true;
            }
            match a {
                Expr::Add(l, r) => {
                    proof {
                        assert(expr_view(*a) == SExpr::Add(Box::new(expr_view(**l)), Box::new(expr_view(**r))));
                    }
                    is_reg(l, 6)
                },
                _ => false,
            }
        },
        _ => false,
    }
}

/// Computes `prologue_stmts`.
fn prologue_exec(v: &Vec<IRStmt>) -> (r: Vec<IRStmt>)
    ensures
        stmts_view(r@) == prologue_stmts(stmts_view(v@)),
{
    let ghost s = stmts_view(v@);
    proof {
        lemma_stmts_view(v@);
    }
    let mut fp: usize = 0;
    let mut found = false;
    while fp < v.len()
        invariant_except_break
            !found,
        invariant
            fp <= v@.len(),
            s == stmts_view(v@),
            s.len() == v@.len(),
            forall|q: int| 0 <= q < v@.len() ==> #[trigger] s[q] == stmt_view(v@[q]),
            fp_from(s, 0) == fp_from(s, fp as int),
        ensures
            found ==> fp < v@.len() && fp_from(s, 0) == fp,
            !found ==> fp_from(s, 0) == -1,
        decreases v@.len() - fp,
    {
        if fp_set_of(&v[fp].kind) {
            found = true;
            break;
        }
        fp = fp + 1;
    }
    if !found {
        return duplicate_stmts(v);
    }
    let prev_is_r5 = fp > 0 && match &v[fp - 1].kind {
        IRStmtKind::Assign(d, _) => *d == 5,
        _ => false,
    };
    proof {
        assert(forall|i: int| 0 <= i < v@.len() ==> (in_setup(s, fp as int, i) <==> (i == fp || (prev_is_r5 && i == fp - 1))));
    }
    let mut code: usize = 0;
    while code < v.len()
        invariant_except_break
            true,
        invariant
            code <= v@.len(),
            s == stmts_view(v@),
            s.len() == v@.len(),
            forall|q: int| 0 <= q < v@.len() ==> #[trigger] s[q] == stmt_view(v@[q]),
            forall|i: int| 0 <= i < v@.len() ==> (in_setup(s, fp as int, i) <==> (i == fp || (prev_is_r5 && i == fp - 1))),
            code_from(s, fp as int, 0) == code_from(s, fp as int, code as int),
        ensures
            code <= v@.len(),
            code_from(s, fp as int, 0) == code,
        decreases v@.len() - code,
    {
        let in_setup_here = code == fp || (prev_is_r5 && code + 1 == fp);
        if !in_setup_here {
            let is_goto = match &v[code].kind {
                IRStmtKind::Goto(_, _, _) => true,
                _ => false,
            };
            if param_load_of(&v[code].kind) || is_goto {
                break;
            }
        }
        code = code + 1;
    }
    let mut out: Vec<IRStmt> = Vec::new();
    let mut i: usize = 0;
    while i < v.len()
        invariant
            i <= v@.len(),
            s == stmts_view(v@),
            s.len() == v@.len(),
            forall|q: int| 0 <= q < v@.len() ==> #[trigger] s[q] == stmt_view(v@[q]),
            forall|j: int| 0 <= j < v@.len() ==> (in_setup(s, fp as int, j) <==> (j == fp || (prev_is_r5 && j == fp - 1))),
            code_from(s, fp as int, 0) == code,
            stmts_view(out@) == drop_prologue(s, fp as int, code as int, i as int),
        decreases v@.len() - i,
    {
        let setup = i == fp || (prev_is_r5 && i + 1 == fp);
        let is_sp = match &v[i].kind {
            IRStmtKind::Assign(d, _) => *d == 6,
            _ => false,
        };
        let removed = setup || (i < code && (is_sp || stack_store_of(&v[i].kind)));
        proof {
            assert(removed == in_prologue(s, fp as int, code as int, i as int));
        }
        if !removed {
            let ghost o0 = out@;
            out.push(v[i].duplicate());
            proof {
                assert(out@.drop_last() =~= o0);
            }
        }
        i = i + 1;
    }
    out
}

/// Computes `stack_load`.
fn stack_load_of(e: &Expr) -> (b: bool)
    ensures
        b == stack_load(e@),
{
    match e {
        Expr::Load(a) => {
            if is_reg(a, 6) {
                return true;
            }
            match &**a {
                Expr::Add(l, r) => {
                    proof {
                        assert(expr_view(**a) == SExpr::Add(Box::new(expr_view(**l)), Box::new(expr_view(**r))));
                    }
                    is_reg(l, 6)
                },
                _ => false,
            }
        },
        _ => false,
    }
}

/// Computes `retval_addr`.
fn retval_addr_of(a: &Expr) -> (b: bool)
    ensures
        b == retval_addr(a@),
{
    match a {
        Expr::Add(l, r) => (is_reg(l, 5) && is_imm(r, 3)) || (is_imm(l, 3) && is_reg(r, 5)),
        _ => false,
    }
}

/// Computes `epilogue_stmts`.
fn epilogue_exec(v: &Vec<IRStmt>) -> (r: Vec<IRStmt>)
    ensures
        stmts_view(r@) == epilogue_stmts(stmts_view(v@)),
{
    let ghost s = stmts_view(v@);
    proof {
        lemma_stmts_view(v@);
    }
    let n = v.len();
    if n < 2 {
        return duplicate_stmts(v);
    }
    let is_ret = match &v[n - 1].kind {
        IRStmtKind::Return(_) => true,
        _ => false,
    };
    if !is_ret {
        return duplicate_stmts(v);
    }
    let mut rv: Option<Expr> = None;
    let mut i: usize = n - 2;
    let mut stop_before: usize = 0;
    let mut stopped = false;
    loop
        invariant_except_break
            !stopped,
            epilogue_walk(s, n - 2, None) == epilogue_walk(s, i as int, opt_view(rv)),
        invariant
            n == v@.len(),
            n >= 2,
            i <= n - 2,
            s == stmts_view(v@),
            s.len() == v@.len(),
            forall|q: int| 0 <= q < v@.len() ==> #[trigger] s[q] == stmt_view(v@[q]),
        ensures
            stopped ==> stop_before <= n - 2 && epilogue_walk(s, n - 2, None) == (stop_before as int, opt_view(rv)),
            !stopped ==> epilogue_walk(s, n - 2, None) == (-1int, opt_view(rv)),
        decreases i,
    {
        let part = match &v[i].kind {
            IRStmtKind::Assign(d, e) => *d == 6 || stack_load_of(e),
            IRStmtKind::Store(a, val) => {
                if retval_addr_of(a) {
                    rv = Some(val.duplicate());
                    true
                } else {
                    false
                }
            },
            _ => false,
        };
        if !part {
            stop_before = i;
            stopped = true;
            break;
        }
        if i == 0 {
            proof {
                assert(epilogue_walk(s, -1, opt_view(rv)) == (-1int, opt_view(rv)));
            }
            break;
        }
        i = i - 1;
    }
    let keep: usize = if stopped {
        stop_before + 1
    } else {
        0
    };
    let mut out: Vec<IRStmt> = Vec::new();
    let mut j: usize = 0;
    while j < keep
        invariant
            j <= keep,
            keep <= n - 1,
            n == v@.len(),
            s == stmts_view(v@),
            s.len() == v@.len(),
            forall|q: int| 0 <= q < v@.len() ==> #[trigger] s[q] == stmt_view(v@[q]),
            out@.len() == j,
            forall|q: int| 0 <= q < j ==> #[trigger] stmt_view(out@[q]) == s[q],
        decreases keep - j,
    {
        out.push(v[j].duplicate());
        j = j + 1;
    }
    let last = match rv {
        Some(val) => IRStmt { addr: v[n - 1].addr, kind: IRStmtKind::Return(Some(val)) },
        None => v[n - 1].duplicate(),
    };
    out.push(last);
    proof {
        lemma_stmts_view(out@);
        assert(stmts_view(out@) =~= epilogue_stmts(s));
    }
    out
}

/// Computes `rp_opt`.
fn rp_opt_exec(c: &Option<Expr>) -> (r: Option<Expr>)
    ensures
        opt_view(r) == rp_opt(opt_view(*c)),
{
    match c {
        Some(e) => Some(replace_params_in_expr(e)),
        None => None,
    }
}

/// Computes `param_top`.
fn param_top_exec(s: &IRStmt) -> (r: IRStmt)
    ensures
        r@ == param_top(s@),
{
    let kind = match &s.kind {
        IRStmtKind::Assign(d, e) => IRStmtKind::Assign(*d, replace_params_in_expr(e)),
        IRStmtKind::Store(a, v) => IRStmtKind::Store(replace_params_in_expr(a), replace_params_in_expr(v)),
        IRStmtKind::Goto(c, cc, t) => IRStmtKind::Goto(rp_opt_exec(c), *cc, *t),
        IRStmtKind::Call(e, args) => IRStmtKind::Call(replace_params_in_expr(e), duplicate_exprs(args)),
        IRStmtKind::Return(c) => IRStmtKind::Return(rp_opt_exec(c)),
        IRStmtKind::If(c, cc, t, f) => IRStmtKind::If(
            rp_opt_exec(c),
            *cc,
            duplicate_stmts(t),
            match f {
                Some(fs) => Some(duplicate_stmts(fs)),
                None => None,
            },
        ),
        IRStmtKind::DoWhile(c, cc, b) => IRStmtKind::DoWhile(rp_opt_exec(c), *cc, crate::ir::duplicate_blocks(b)),
        IRStmtKind::While(c, cc, b) => IRStmtKind::While(rp_opt_exec(c), *cc, crate::ir::duplicate_blocks(b)),
        IRStmtKind::For(i, c, cc, n, b) => IRStmtKind::For(
            Box::new(i.duplicate()),
            rp_opt_exec(c),
            *cc,
            Box::new(n.duplicate()),
            crate::ir::duplicate_blocks(b),
        ),
        _ => {
            let d = s.duplicate();
            d.kind
        },
    };
    IRStmt { addr: s.addr, kind }
}

/// Computes `vec_params`.
fn vec_params_exec(v: &Vec<IRStmt>) -> (r: Vec<IRStmt>)
    ensures
        stmts_view(r@) == vec_params(stmts_view(v@)),
{
    let ghost s = stmts_view(v@);
    proof {
        lemma_stmts_view(v@);
    }
    let mut out: Vec<IRStmt> = Vec::new();
    let mut i: usize = 0;
    while i < v.len()
        invariant
            i <= v@.len(),
            s == stmts_view(v@),
            s.len() == v@.len(),
            forall|q: int| 0 <= q < v@.len() ==> #[trigger] s[q] == stmt_view(v@[q]),
            out@.len() == i,
            forall|q: int| 0 <= q < i ==> #[trigger] stmt_view(out@[q]) == vec_params(s)[q],
        decreases v@.len() - i,
    {
        let st = match &v[i].kind {
            IRStmtKind::Assign(d, e) => IRStmt { addr: v[i].addr, kind: IRStmtKind::Assign(*d, replace_params_in_expr(e)) },
            IRStmtKind::Store(a, b) => IRStmt {
                addr: v[i].addr,
                kind: IRStmtKind::Store(replace_params_in_expr(a), replace_params_in_expr(b)),
            },
            _ => v[i].duplicate(),
        };
        out.push(st);
        i = i + 1;
    }
    proof {
        lemma_stmts_view(out@);
        assert(stmts_view(out@) =~= vec_params(s));
    }
    out
}

/// Replaces parameter loads in the assignments and stores of a statement
/// vector (see `vec_params`).
fn process_callee_vec(stmts: &mut Vec<IRStmt>)
    ensures
        stmts_view(final(stmts)@) == vec_params(stmts_view(old(stmts)@)),
{
    let r = vec_params_exec(stmts);
    *stmts = r;
}

/// Computes `callee`.
fn callee_exec(m: &AddrMap<Vec<IRStmt>>, entry: u16) -> (r: AddrMap<Vec<IRStmt>>)
    ensures
        blocks_view(r.entries@) == callee(blocks_view(m.entries@), entry),
    decreases m, 1int,
{
    let mut n = callee_nested_blocks_exec(m);
    let ghost nv = blocks_view(n.entries@);
    match find_block_any(&n, entry) {
        Some(i) => {
            proof {
                lemma_bfind(nv, entry, 0);
                lemma_blocks_view(n.entries@);
            }
            let p = prologue_exec(&n.entries[i].1);
            put_block(&mut n, i, p);
        },
        None => {},
    }
    let ghost pv = blocks_view(n.entries@);
    proof {
        assert(pv == prologue(nv, entry));
        lemma_blocks_view(n.entries@);
    }
    let mut entries: Vec<(u16, Vec<IRStmt>)> = Vec::new();
    let mut k: usize = 0;
    while k < n.entries.len()
        invariant
            k <= n.entries@.len(),
            pv == blocks_view(n.entries@),
            pv.len() == n.entries@.len(),
            forall|q: int| 0 <= q < n.entries@.len() ==> #[trigger] pv[q] == (n.entries@[q].0, stmts_view(n.entries@[q].1@)),
            entries@.len() == k,
            forall|q: int| 0 <= q < k ==> #[trigger] entries@[q].0 == n.entries@[q].0,
            forall|q: int| 0 <= q < k ==> stmts_view(#[trigger] entries@[q].1@) == params_blocks(epilogue_blocks(pv))[q].1,
        decreases n.entries@.len() - k,
    {
        let e = epilogue_exec(&n.entries[k].1);
        let ghost ev = stmts_view(e@);
        proof {
            lemma_stmts_view(e@);
        }
        let mut out: Vec<IRStmt> = Vec::new();
        let mut j: usize = 0;
        while j < e.len()
            invariant
                j <= e@.len(),
                ev == stmts_view(e@),
                ev.len() == e@.len(),
                forall|q: int| 0 <= q < e@.len() ==> #[trigger] ev[q] == stmt_view(e@[q]),
                out@.len() == j,
                forall|q: int| 0 <= q < j ==> #[trigger] stmt_view(out@[q]) == param_top(ev[q]),
            decreases e@.len() - j,
        {
            out.push(param_top_exec(&e[j]));
            j = j + 1;
        }
        proof {
            lemma_stmts_view(out@);
            assert(stmts_view(out@) =~= params_blocks(epilogue_blocks(pv))[k as int].1);
        }
        let ghost e0 = entries@;
        entries.push((n.entries[k].0, out));
        proof {
            assert forall|q: int| 0 <= q < k + 1 implies stmts_view(#[trigger] entries@[q].1@) == params_blocks(epilogue_blocks(pv))[q].1 by {
                if q < k {
                    assert(entries@[q] == e0[q]);
                }
            }
        }
        k = k + 1;
    }
    let r = AddrMap { entries };
    proof {
        lemma_blocks_view(r.entries@);
        assert(blocks_view(r.entries@) =~= params_blocks(epilogue_blocks(pv)));
    }
    r
}

/// Computes `callee_nested_blocks`.
fn callee_nested_blocks_exec(m: &AddrMap<Vec<IRStmt>>) -> (r: AddrMap<Vec<IRStmt>>)
    ensures
        blocks_view(r.entries@) == callee_nested_blocks(blocks_view(m.entries@)),
    decreases m, 0int,
{
    let mut entries: Vec<(u16, Vec<IRStmt>)> = Vec::new();
    let mut i: usize = 0;
    while i < m.entries.len()
        invariant
            i <= m.entries@.len(),
            blocks_view(entries@) == callee_nested_blocks(blocks_view(m.entries@.subrange(0, i as int))),
        decreases m.entries@.len() - i,
    {
        proof {
            assert(decreases_to!(m => m.entries));
            assert(decreases_to!(m.entries => m.entries[i as int]));
            assert(decreases_to!(m.entries[i as int] => m.entries[i as int].1));
            let x = m.entries@.subrange(0, i + 1);
            assert(x.drop_last() =~= m.entries@.subrange(0, i as int));
            assert(blocks_view(x).drop_last() == blocks_view(x.drop_last()));
        }
        let v = callee_nested_stmts_exec(&m.entries[i].1);
        let ghost e0 = entries@;
        entries.push((m.entries[i].0, v));
        proof {
            assert(entries@.drop_last() =~= e0);
        }
        i = i + 1;
    }
    proof {
        assert(m.entries@.subrange(0, i as int) =~= m.entries@);
    }
    AddrMap { entries }
}

/// Computes `callee_nested_stmts`.
fn callee_nested_stmts_exec(v: &Vec<IRStmt>) -> (r: Vec<IRStmt>)
    ensures
        stmts_view(r@) == callee_nested_stmts(stmts_view(v@)),
    decreases v, 0int,
{
    let mut out: Vec<IRStmt> = Vec::new();
    let mut i: usize = 0;
    while i < v.len()
        invariant
            i <= v@.len(),
            stmts_view(out@) == callee_nested_stmts(stmts_view(v@.subrange(0, i as int))),
        decreases v@.len() - i,
    {
        proof {
            assert(decreases_to!(v => v[i as int]));
            let x = v@.subrange(0, i + 1);
            assert(x.drop_last() =~= v@.subrange(0, i as int));
            assert(stmts_view(x).drop_last() == stmts_view(x.drop_last()));
        }
        let st = callee_nested_exec(&v[i]);
        let ghost o0 = out@;
        out.push(st);
        proof {
            assert(out@.drop_last() =~= o0);
        }
        i = i + 1;
    }
    proof {
        assert(v@.subrange(0, i as int) =~= v@);
    }
    out
}

/// Computes `callee_nested`.
fn callee_nested_exec(s: &IRStmt) -> (r: IRStmt)
    ensures
        r@ == callee_nested(s@),
    decreases s, 0int,
{
    match &s.kind {
        IRStmtKind::DoWhile(c, cc, body) => IRStmt {
            addr: s.addr,
            kind: IRStmtKind::DoWhile(duplicate_opt(c), *cc, callee_exec(body, 0xFFFF)),
        },
        IRStmtKind::While(c, cc, body) => IRStmt {
            addr: s.addr,
            kind: IRStmtKind::While(duplicate_opt(c), *cc, callee_exec(body, 0xFFFF)),
        },
        IRStmtKind::For(i, c, cc, n, body) => IRStmt {
            addr: s.addr,
            kind: IRStmtKind::For(
                Box::new(i.duplicate()),
                duplicate_opt(c),
                *cc,
                Box::new(n.duplicate()),
                callee_exec(body, 0xFFFF),
            ),
        },
        IRStmtKind::If(c, cc, t, f) => {
            let mut t2 = duplicate_stmts(t);
            process_callee_vec(&mut t2);
            let f2 = match f {
                Some(fs) => {
                    let mut x = duplicate_stmts(fs);
                    process_callee_vec(&mut x);
                    Some(x)
                },
                None => None,
            };
            IRStmt { addr: s.addr, kind: IRStmtKind::If(duplicate_opt(c), *cc, t2, f2) }
        },
        _ => s.duplicate(),
    }
}

/// Simplifies a function that follows the stack calling convention: removes
/// the prologue of the entry block and the epilogues before returns, makes
/// returns carry the stored return value, and reads parameters as `Param`s
/// (see `callee`).
pub fn process_callee(blocks: &mut AddrMap<Vec<IRStmt>>, entry_addr: u16)
    ensures
        blocks_view(final(blocks).entries@) == callee(blocks_view(old(blocks).entries@), entry_addr),
{
    let r = callee_exec(blocks, entry_addr);
    *blocks = r;
}

/// Whether an expression reads the top of the stack in the way the caller
/// pass looks for a return value: a load from `R6` or `R6 + 0`, at any depth.
pub open spec fn contains_r6(e: SExpr) -> bool
    decreases e,
{
    match e {
        SExpr::Load(inner) => match *inner {
            SExpr::Register(r) => r == 6,
            SExpr::Add(l, r) => (is_reg_s(*l, 6) && is_imm_s(*r, 0)) || (is_imm_s(*l, 0) && is_reg_s(*r, 6))
                || contains_r6(*l) || contains_r6(*r),
            _ => contains_r6(*inner),
        },
        SExpr::Add(a, b) => contains_r6(*a) || contains_r6(*b),
        SExpr::Sub(a, b) => contains_r6(*a) || contains_r6(*b),
        SExpr::And(a, b) => contains_r6(*a) || contains_r6(*b),
        SExpr::Not(a) => contains_r6(*a),
        SExpr::Neg(a) => contains_r6(*a),
        SExpr::Call(t, args) => contains_r6(*t) || contains_r6_any(args),
        _ => false,
    }
}

/// Whether some expression of a sequence satisfies `contains_r6`.
pub open spec fn contains_r6_any(s: Seq<SExpr>) -> bool
    decreases s,
{
    if s.len() == 0 {
        false
    } else {
        contains_r6_any(s.drop_last()) || contains_r6(s.last())
    }
}

/// Whether an address is the top of the stack, `R6` or `R6 + 0` (either
/// order).
pub open spec fn stack_top0(a: SExpr) -> bool {
    is_reg_s(a, 6) || match a {
        SExpr::Add(l, r) => (is_reg_s(*l, 6) && is_imm_s(*r, 0)) || (is_imm_s(*l, 0) && is_reg_s(*r, 6)),
        _ => false,
    }
}

/// Every load from the top of the stack replaced by `rep`, and whether there
/// was one.
pub open spec fn rr(e: SExpr, rep: SExpr) -> (SExpr, bool)
    decreases e,
{
    match e {
        SExpr::Load(inner) => if stack_top0(*inner) {
            (rep, true)
        } else {
            let (n, c) = rr(*inner, rep);
            (SExpr::Load(Box::new(n)), c)
        },
        SExpr::Add(a, b) => {
            let (x, c1) = rr(*a, rep);
            let (y, c2) = rr(*b, rep);
            (SExpr::Add(Box::new(x), Box::new(y)), c1 || c2)
        },
        SExpr::Sub(a, b) => {
            let (x, c1) = rr(*a, rep);
            let (y, c2) = rr(*b, rep);
            (SExpr::Sub(Box::new(x), Box::new(y)), c1 || c2)
        },
        SExpr::And(a, b) => {
            let (x, c1) = rr(*a, rep);
            let (y, c2) = rr(*b, rep);
            (SExpr::And(Box::new(x), Box::new(y)), c1 || c2)
        },
        SExpr::Not(a) => {
            let (x, c) = rr(*a, rep);
            (SExpr::Not(Box::new(x)), c)
        },
        SExpr::Neg(a) => {
            let (x, c) = rr(*a, rep);
            (SExpr::Neg(Box::new(x)), c)
        },
        SExpr::Call(t, args) => {
            let (x, c) = rr(*t, rep);
            let (ys, cs) = rr_all(args, rep);
            (SExpr::Call(Box::new(x), ys), c || cs)
        },
        _ => (e, false),
    }
}

/// `rr` of each expression.
pub open spec fn rr_all(s: Seq<SExpr>, rep: SExpr) -> (Seq<SExpr>, bool)
    decreases s,
{
    if s.len() == 0 {
        (Seq::empty(), false)
    } else {
        let (p, cp) = rr_all(s.drop_last(), rep);
        let (x, cx) = rr(s.last(), rep);
        (p.push(x), cp || cx)
    }
}

/// Computes `contains_r6`.
fn contains_r6_load(expr: &Expr) -> (b: bool)
    ensures
        b == contains_r6(expr@),
    decreases expr,
{
    match expr {
        Expr::Load(inner) => match &**inner {
            Expr::Register(r) => *r == 6,
            Expr::Add(lhs, rhs) => {
                proof {
                    assert(expr_view(**inner) == SExpr::Add(Box::new(expr_view(**lhs)), Box::new(expr_view(**rhs))));
                }
                (is_reg(lhs, 6) && is_imm(rhs, 0)) || (is_imm(lhs, 0) && is_reg(rhs, 6)) || contains_r6_load(lhs)
                    || contains_r6_load(rhs)
            },
            _ => contains_r6_load(inner),
        },
        Expr::Add(a, b) => contains_r6_load(a) || contains_r6_load(b),
        Expr::Sub(a, b) => contains_r6_load(a) || contains_r6_load(b),
        Expr::And(a, b) => contains_r6_load(a) || contains_r6_load(b),
        Expr::Not(a) => contains_r6_load(a),
        Expr::Neg(a) => contains_r6_load(a),
        Expr::Call(t, args) => contains_r6_load(t) || contains_r6_args(args),
        _ => false,
    }
}

/// Computes `contains_r6_any`.
fn contains_r6_args(args: &Vec<Expr>) -> (b: bool)
    ensures
        b == contains_r6_any(exprs_view(args@)),
    decreases args,
{
    proof {
        lemma_exprs_view(args@);
    }
    let mut i: usize = 0;
    while i < args.len()
        invariant
            i <= args@.len(),
            exprs_view(args@).len() == args@.len(),
            !contains_r6_any(exprs_view(args@.subrange(0, i as int))),
        decreases args@.len() - i,
    {
        proof {
            assert(decreases_to!(args => args[i as int]));
            let x = args@.subrange(0, i + 1);
            assert(x.drop_last() =~= args@.subrange(0, i as int));
            assert(exprs_view(x).drop_last() == exprs_view(x.drop_last()));
        }
        if contains_r6_load(&args[i]) {
            proof {
                lemma_exprs_view_prefix(args@, i + 1);
                lemma_any_prefix(exprs_view(args@), i + 1);
            }
            return true;
        }
        i = i + 1;
    }
    proof {
        assert(args@.subrange(0, i as int) =~= args@);
    }
    false
}

proof fn lemma_exprs_view_prefix(v: Seq<Expr>, n: int)
    requires
        0 <= n <= v.len(),
    ensures
        exprs_view(v.subrange(0, n)) == exprs_view(v).subrange(0, n),
{
    lemma_exprs_view(v);
    lemma_exprs_view(v.subrange(0, n));
    assert(exprs_view(v.subrange(0, n)) =~= exprs_view(v).subrange(0, n));
}

/// A prefix that has an element satisfying `contains_r6` makes the whole
/// sequence have one.
proof fn lemma_any_prefix(s: Seq<SExpr>, n: int)
    requires
        0 <= n <= s.len(),
        contains_r6_any(s.subrange(0, n)),
    ensures
        contains_r6_any(s),
    decreases s.len() - n,
{
    if n < s.len() {
        let x = s.subrange(0, n + 1);
        assert(x.drop_last() =~= s.subrange(0, n));
        lemma_any_prefix(s, n + 1);
    } else {
        assert(s.subrange(0, n) =~= s);
    }
}

/// Computes `rr`.
fn replace_r6_load(expr: &Expr, replacement: &Expr) -> (r: (Expr, bool))
    ensures
        (r.0@, r.1) == rr(expr@, replacement@),
    decreases expr,
{
    match expr {
        Expr::Load(inner) => {
            let top = is_reg(inner, 6) || match &**inner {
                Expr::Add(lhs, rhs) => {
                    proof {
                        assert(expr_view(**inner) == SExpr::Add(Box::new(expr_view(**lhs)), Box::new(expr_view(**rhs))));
                    }
                    (is_reg(lhs, 6) && is_imm(rhs, 0)) || (is_imm(lhs, 0) && is_reg(rhs, 6))
                },
                _ => false,
            };
            if top {
                (replacement.duplicate(), true)
            } else {
                let (n, c) = replace_r6_load(inner, replacement);
                (Expr::Load(Box::new(n)), c)
            }
        },
        Expr::Add(a, b) => {
            let (x, c1) = replace_r6_load(a, replacement);
            let (y, c2) = replace_r6_load(b, replacement);
            (Expr::Add(Box::new(x), Box::new(y)), c1 || c2)
        },
        Expr::Sub(a, b) => {
            let (x, c1) = replace_r6_load(a, replacement);
            let (y, c2) = replace_r6_load(b, replacement);
            (Expr::Sub(Box::new(x), Box::new(y)), c1 || c2)
        },
        Expr::And(a, b) => {
            let (x, c1) = replace_r6_load(a, replacement);
            let (y, c2) = replace_r6_load(b, replacement);
            (Expr::And(Box::new(x), Box::new(y)), c1 || c2)
        },
        Expr::Not(a) => {
            let (x, c) = replace_r6_load(a, replacement);
            (Expr::Not(Box::new(x)), c)
        },
        Expr::Neg(a) => {
            let (x, c) = replace_r6_load(a, replacement);
            (Expr::Neg(Box::new(x)), c)
        },
        Expr::Call(t, args) => {
            let (x, c) = replace_r6_load(t, replacement);
            let (ys, cs) = replace_r6_args(args, replacement);
            (Expr::Call(Box::new(x), ys), c || cs)
        },
        _ => (expr.duplicate(), false),
    }
}

/// Computes `rr_all`.
fn replace_r6_args(args: &Vec<Expr>, replacement: &Expr) -> (r: (Vec<Expr>, bool))
    ensures
        (exprs_view(r.0@), r.1) == rr_all(exprs_view(args@), replacement@),
    decreases args,
{
    let mut ys: Vec<Expr> = Vec::new();
    let mut cs = false;
    let mut i: usize = 0;
    while i < args.len()
        invariant
            i <= args@.len(),
            (exprs_view(ys@), cs) == rr_all(exprs_view(args@.subrange(0, i as int)), replacement@),
        decreases args@.len() - i,
    {
        proof {
            assert(decreases_to!(args => args[i as int]));
            let xx = args@.subrange(0, i + 1);
            assert(xx.drop_last() =~= args@.subrange(0, i as int));
            assert(exprs_view(xx).drop_last() == exprs_view(xx.drop_last()));
        }
        let (y, cy) = replace_r6_load(&args[i], replacement);
        let ghost y0 = ys@;
        ys.push(y);
        cs = cs || cy;
        proof {
            assert(ys@.drop_last() =~= y0);
        }
        i = i + 1;
    }
    proof {
        assert(args@.subrange(0, i as int) =~= args@);
    }
    (ys, cs)
}

/// Whether an address pushes with one store: `R6 - 1` written as
/// `R6 + -1` (either order) or `R6 - 1`.
pub open spec fn combined_push(a: SExpr) -> bool {
    match a {
        SExpr::Add(l, r) => (is_reg_s(*l, 6) && is_imm_s(*r, -1i16)) || (is_imm_s(*l, -1i16) && is_reg_s(*r, 6)),
        SExpr::Sub(l, r) => is_reg_s(*l, 6) && is_imm_s(*r, 1),
        _ => false,
    }
}

/// Whether an address is `R6` or `R6 + x`.
pub open spec fn stack_top(a: SExpr) -> bool {
    is_reg_s(a, 6) || match a {
        SExpr::Add(l, _) => is_reg_s(*l, 6),
        _ => false,
    }
}

/// The backward search for the arguments pushed before a call, from index
/// `curr` down: in state `false` a store is expected (a push in one store,
/// or a store to the stack top that an adjustment of R6 must precede),
/// assignments are skipped; in state `true` an assignment of R6 completes
/// the push. The result is the arguments, nearest first, and the indices of
/// the statements that pushed them.
pub open spec fn push_args(
    s: Seq<SStmt>,
    curr: int,
    state: bool,
    arg_val: Option<SExpr>,
    store_idx: int,
    args: Seq<SExpr>,
    rem: Seq<int>,
) -> (Seq<SExpr>, Seq<int>)
    decreases curr,
{
    if curr <= 0 || curr > s.len() {
        (args, rem)
    } else {
        let c = curr - 1;
        if !state {
            match s[c].kind {
                SKind::Store(a, v) => if combined_push(a) {
                    push_args(s, c, false, arg_val, store_idx, args.push(v), rem.push(c))
                } else if stack_top(a) {
                    push_args(s, c, true, Some(v), c, args, rem)
                } else {
                    (args, rem)
                },
                SKind::Assign(_, _) => push_args(s, c, false, arg_val, store_idx, args, rem),
                _ => (args, rem),
            }
        } else {
            match s[c].kind {
                SKind::Assign(d, _) => if d == 6 {
                    match arg_val {
                        Some(v) => push_args(s, c, false, None, store_idx, args.push(v), rem.push(store_idx).push(c)),
                        None => push_args(s, c, true, None, store_idx, args, rem),
                    }
                } else {
                    push_args(s, c, true, arg_val, store_idx, args, rem)
                },
                _ => (args, rem),
            }
        }
    }
}

/// Whether a statement reads the return value slot (see `contains_r6`).
pub open spec fn has_r6(k: SKind) -> bool {
    match k {
        SKind::Assign(_, e) => contains_r6(e),
        SKind::Store(a, v) => contains_r6(a) || contains_r6(v),
        _ => false,
    }
}

/// The index of the first statement from the `j`th on with `has_r6`, or -1.
pub open spec fn ret_from(s: Seq<SStmt>, j: int) -> int
    decreases s.len() - j,
{
    if j < 0 || j >= s.len() {
        -1
    } else if has_r6(s[j].kind) {
        j
    } else {
        ret_from(s, j + 1)
    }
}

/// `rr` in a statement's expressions.
pub open spec fn replace_in_stmt(st: SStmt, rep: SExpr) -> (SStmt, bool) {
    match st.kind {
        SKind::Assign(d, e) => (SStmt { addr: st.addr, kind: SKind::Assign(d, rr(e, rep).0) }, rr(e, rep).1),
        SKind::Store(a, v) => (
            SStmt { addr: st.addr, kind: SKind::Store(rr(a, rep).0, rr(v, rep).0) },
            rr(a, rep).1 || rr(v, rep).1,
        ),
        _ => (st, false),
    }
}

/// The amount a stack pointer adjustment adds: `x` in `R6 + x` (either
/// order), 0 otherwise.
pub open spec fn cleanup_val(e: SExpr) -> i16 {
    match e {
        SExpr::Add(l, r) => if is_reg_s(*l, 6) {
            match *r {
                SExpr::Immediate(v) => v,
                _ => 0,
            }
        } else if is_reg_s(*r, 6) {
            match *l {
                SExpr::Immediate(v) => v,
                _ => 0,
            }
        } else {
            0
        },
        _ => 0,
    }
}

/// The stack cleanup after a call at index `j`: an adjustment of R6 by the
/// expected amount or more is removed (reported `true`), one by less keeps
/// only the difference.
pub open spec fn cleanup(s: Seq<SStmt>, j: int, expected: i16) -> (Seq<SStmt>, bool) {
    match s[j].kind {
        SKind::Assign(d, e) => if d == 6 {
            let cv = cleanup_val(e);
            if cv == expected {
                (s, true)
            } else if cv < expected {
                (
                    s.update(
                        j,
                        SStmt {
                            addr: s[j].addr,
                            kind: SKind::Assign(
                                6,
                                SExpr::Add(Box::new(SExpr::Register(6)), Box::new(SExpr::Immediate(crate::ir::wsub(cv, expected)))),
                            ),
                        },
                    ),
                    false,
                )
            } else {
                (s, true)
            }
        } else {
            (s, false)
        },
        _ => (s, false),
    }
}

/// `cleanup` at each index of `[j, end)`, with the indices to remove.
pub open spec fn cleanup_range(s: Seq<SStmt>, j: int, end: int, expected: i16, handled: Seq<int>) -> (Seq<SStmt>, Seq<int>)
    decreases end - j,
{
    if j >= end {
        (s, handled)
    } else {
        let (s2, h) = cleanup(s, j, expected);
        cleanup_range(s2, j + 1, end, expected, if h { handled.push(j) } else { handled })
    }
}

/// The statements whose indices are not in `r`, among the first `n`.
pub open spec fn filter_out(s: Seq<SStmt>, r: Seq<int>, n: int) -> Seq<SStmt>
    decreases n,
{
    if n <= 0 {
        Seq::empty()
    } else {
        let f = filter_out(s, r, n - 1);
        if r.contains(n - 1) {
            f
        } else {
            f.push(s[n - 1])
        }
    }
}

/// How many of the indices below `n` are in `r`.
pub open spec fn count_in(r: Seq<int>, n: int) -> nat
    decreases n,
{
    if n <= 0 {
        0
    } else {
        count_in(r, n - 1) + if r.contains(n - 1) { 1nat } else { 0nat }
    }
}

pub proof fn lemma_filter_out(s: Seq<SStmt>, r: Seq<int>, n: int)
    requires
        0 <= n <= s.len(),
    ensures
        filter_out(s, r, n).len() == n - count_in(r, n),
        count_in(r, n) <= n,
    decreases n,
{
    if n > 0 {
        lemma_filter_out(s, r, n - 1);
    }
}

pub proof fn lemma_count_mono(r: Seq<int>, a: int, b: int)
    requires
        0 <= a <= b,
    ensures
        count_in(r, a) <= count_in(r, b),
        count_in(r, b) - count_in(r, a) <= b - a,
    decreases b - a,
{
    if a < b {
        lemma_count_mono(r, a, b - 1);
    }
}

/// One call at index `i` with the calling convention undone: its pushed
/// arguments become its arguments; where a later statement reads the return
/// value slot, the call is inlined there and the stack cleanup between (and
/// right after) goes; otherwise the cleanup right after it goes. The
/// result is the statements and the index to go on from.
pub open spec fn call_step(s: Seq<SStmt>, i: int) -> (Seq<SStmt>, int) {
    let (args, rem0) = push_args(s, i, false, None, 0, Seq::empty(), Seq::empty());
    let target = s[i].kind->Call_0;
    let call_expr = SExpr::Call(Box::new(target), args);
    let expected = crate::ir::wadd(args.len() as i16, 1);
    let r = ret_from(s, i + 1);
    let (s2, used, handled) = if r >= 0 {
        let (ns, rep) = replace_in_stmt(s[r], call_expr);
        let s1 = s.update(r, ns);
        if rep {
            let (s3, h1) = cleanup_range(s1, i + 1, r, expected, Seq::empty());
            if r + 1 < s.len() {
                let (s5, hh) = cleanup(s3, r + 1, expected);
                (s5, true, if hh { h1.push(r + 1) } else { h1 })
            } else {
                (s3, true, h1)
            }
        } else {
            (s1, false, Seq::empty())
        }
    } else if i + 1 < s.len() {
        let (s5, hh) = cleanup(s, i + 1, expected);
        (s5, false, if hh { seq![i + 1] } else { Seq::empty() })
    } else {
        (s, false, Seq::empty())
    };
    let s6 = if !used {
        s2.update(i, SStmt { addr: s2[i].addr, kind: SKind::Call(target, args) })
    } else {
        s2
    };
    let rm = rem0 + (if used { seq![i] } else { Seq::empty() }) + handled;
    let cnt = count_in(rm, i + 1);
    (filter_out(s6, rm, s6.len() as int), if cnt > i { 1 } else { i - cnt + 1 })
}

pub proof fn lemma_cleanup_len(s: Seq<SStmt>, j: int, expected: i16)
    requires
        0 <= j < s.len(),
    ensures
        cleanup(s, j, expected).0.len() == s.len(),
{
}

pub proof fn lemma_cleanup_range_len(s: Seq<SStmt>, j: int, end: int, expected: i16, handled: Seq<int>)
    requires
        0 <= j,
        end <= s.len(),
    ensures
        cleanup_range(s, j, end, expected, handled).0.len() == s.len(),
    decreases end - j,
{
    if j < end {
        lemma_cleanup_len(s, j, expected);
        let (s2, h) = cleanup(s, j, expected);
        lemma_cleanup_range_len(s2, j + 1, end, expected, if h { handled.push(j) } else { handled });
    }
}

pub proof fn lemma_ret_from(s: Seq<SStmt>, j: int)
    ensures
        ret_from(s, j) >= 0 ==> j <= ret_from(s, j) < s.len(),
    decreases s.len() - j,
{
    if 0 <= j < s.len() && !has_r6(s[j].kind) {
        lemma_ret_from(s, j + 1);
    }
}

pub proof fn lemma_call_step(s: Seq<SStmt>, i: int)
    requires
        0 <= i < s.len(),
    ensures
        call_step(s, i).0.len() - call_step(s, i).1 < s.len() - i,
{
    let (args, rem0) = push_args(s, i, false, None, 0, Seq::empty(), Seq::empty());
    let target = s[i].kind->Call_0;
    let call_expr = SExpr::Call(Box::new(target), args);
    let expected = crate::ir::wadd(args.len() as i16, 1);
    let r = ret_from(s, i + 1);
    lemma_ret_from(s, i + 1);
    let (s2, used, handled) = if r >= 0 {
        let (ns, rep) = replace_in_stmt(s[r], call_expr);
        let s1 = s.update(r, ns);
        if rep {
            lemma_cleanup_range_len(s1, i + 1, r, expected, Seq::empty());
            let (s3, h1) = cleanup_range(s1, i + 1, r, expected, Seq::empty());
            if r + 1 < s.len() {
                lemma_cleanup_len(s3, r + 1, expected);
                let (s5, hh) = cleanup(s3, r + 1, expected);
                (s5, true, if hh { h1.push(r + 1) } else { h1 })
            } else {
                (s3, true, h1)
            }
        } else {
            (s1, false, Seq::empty())
        }
    } else if i + 1 < s.len() {
        lemma_cleanup_len(s, i + 1, expected);
        let (s5, hh) = cleanup(s, i + 1, expected);
        (s5, false, if hh { seq![i + 1] } else { Seq::empty() })
    } else {
        (s, false, Seq::empty())
    };
    assert(s2.len() == s.len());
    let s6 = if !used {
        s2.update(i, SStmt { addr: s2[i].addr, kind: SKind::Call(target, args) })
    } else {
        s2
    };
    let rm = rem0 + (if used { seq![i] } else { Seq::<int>::empty() }) + handled;
    assert(call_step(s, i) == (filter_out(s6, rm, s6.len() as int), if count_in(rm, i + 1) > i { 1 } else { i - count_in(rm, i + 1) + 1 }));
    lemma_filter_out(s6, rm, s6.len() as int);
    lemma_count_mono(rm, i + 1, s6.len() as int);
    lemma_filter_out(s6, rm, i + 1);
}

/// The caller pass over a statement sequence from index `i` on, with
/// nesting budget `d`: each statement first has its nested bodies
/// processed, then a call is handled by `call_step`.
pub open spec fn caller_from(s: Seq<SStmt>, i: int, d: nat) -> Seq<SStmt>
    decreases d, 2int, if i <= s.len() { s.len() - i } else { 0 },
{
    if i < 0 || i >= s.len() {
        s
    } else {
        let s1 = s.update(i, caller_nested(s[i], d));
        if s1[i].kind is Call {
            proof {
                lemma_call_step(s1, i);
            }
            let (s2, i2) = call_step(s1, i);
            caller_from(s2, i2, d)
        } else {
            caller_from(s1, i + 1, d)
        }
    }
}

/// The caller pass inside a statement: loop bodies and `If` branches.
pub open spec fn caller_nested(s: SStmt, d: nat) -> SStmt
    decreases d, 1int, 0int,
{
    if d == 0 {
        s
    } else {
        match s.kind {
            SKind::DoWhile(c, cc, b) => SStmt { addr: s.addr, kind: SKind::DoWhile(c, cc, caller_blocks(b, (d - 1) as nat)) },
            SKind::While(c, cc, b) => SStmt { addr: s.addr, kind: SKind::While(c, cc, caller_blocks(b, (d - 1) as nat)) },
            SKind::For(i, c, cc, n, b) => SStmt {
                addr: s.addr,
                kind: SKind::For(i, c, cc, n, caller_blocks(b, (d - 1) as nat)),
            },
            SKind::If(c, cc, t, f) => SStmt {
                addr: s.addr,
                kind: SKind::If(
                    c,
                    cc,
                    caller_from(t, 0, (d - 1) as nat),
                    match f {
                        Some(fs) => Some(caller_from(fs, 0, (d - 1) as nat)),
                        None => None,
                    },
                ),
            },
            _ => s,
        }
    }
}

/// The caller pass over every block.
pub open spec fn caller_blocks(b: Seq<(u16, Seq<SStmt>)>, d: nat) -> Seq<(u16, Seq<SStmt>)>
    decreases d, 3int, b.len(),
{
    if b.len() == 0 {
        Seq::empty()
    } else {
        caller_blocks(b.drop_last(), d).push((b.last().0, caller_from(b.last().1, 0, d)))
    }
}

/// How deeply statements nest in a statement (loop bodies and `If`
/// branches).
pub open spec fn sdepth(s: SStmt) -> nat
    decreases s,
{
    match s.kind {
        SKind::DoWhile(_, _, b) => 1 + bdepth(b),
        SKind::While(_, _, b) => 1 + bdepth(b),
        SKind::For(_, _, _, _, b) => 1 + bdepth(b),
        SKind::If(_, _, t, f) => 1 + match f {
            Some(fs) => if ssdepth(t) >= ssdepth(fs) { ssdepth(t) } else { ssdepth(fs) },
            None => ssdepth(t),
        },
        _ => 0,
    }
}

/// The largest `sdepth` of a sequence.
pub open spec fn ssdepth(ss: Seq<SStmt>) -> nat
    decreases ss,
{
    if ss.len() == 0 {
        0
    } else {
        let a = ssdepth(ss.drop_last());
        let b = sdepth(ss.last());
        if a >= b {
            a
        } else {
            b
        }
    }
}

/// The largest `ssdepth` of the blocks.
pub open spec fn bdepth(b: Seq<(u16, Seq<SStmt>)>) -> nat
    decreases b,
{
    if b.len() == 0 {
        0
    } else {
        let x = bdepth(b.drop_last());
        let y = ssdepth(b.last().1);
        if x >= y {
            x
        } else {
            y
        }
    }
}

pub proof fn lemma_ssdepth(ss: Seq<SStmt>, d: nat)
    ensures
        ssdepth(ss) <= d <==> forall|j: int| 0 <= j < ss.len() ==> #[trigger] sdepth(ss[j]) <= d,
    decreases ss.len(),
{
    if ss.len() > 0 {
        lemma_ssdepth(ss.drop_last(), d);
        assert forall|j: int| 0 <= j < ss.len() - 1 implies #[trigger] ss.drop_last()[j] == ss[j] by {}
        if forall|j: int| 0 <= j < ss.len() ==> #[trigger] sdepth(ss[j]) <= d {
            assert(sdepth(ss[ss.len() - 1]) <= d);
            assert forall|j: int| 0 <= j < ss.len() - 1 implies #[trigger] sdepth(ss.drop_last()[j]) <= d by {
                assert(sdepth(ss[j]) <= d);
            }
        }
        if ssdepth(ss) <= d {
            assert forall|j: int| 0 <= j < ss.len() implies #[trigger] sdepth(ss[j]) <= d by {
                if j < ss.len() - 1 {
                    assert(sdepth(ss.drop_last()[j]) <= d);
                }
            }
        }
    }
}

pub proof fn lemma_bdepth(b: Seq<(u16, Seq<SStmt>)>, d: nat)
    ensures
        bdepth(b) <= d <==> forall|j: int| 0 <= j < b.len() ==> #[trigger] ssdepth(b[j].1) <= d,
    decreases b.len(),
{
    if b.len() > 0 {
        lemma_bdepth(b.drop_last(), d);
        assert forall|j: int| 0 <= j < b.len() - 1 implies #[trigger] b.drop_last()[j] == b[j] by {}
        if forall|j: int| 0 <= j < b.len() ==> #[trigger] ssdepth(b[j].1) <= d {
            assert(ssdepth(b[b.len() - 1].1) <= d);
            assert forall|j: int| 0 <= j < b.len() - 1 implies #[trigger] ssdepth(b.drop_last()[j].1) <= d by {
                assert(ssdepth(b[j].1) <= d);
            }
        }
        if bdepth(b) <= d {
            assert forall|j: int| 0 <= j < b.len() implies #[trigger] ssdepth(b[j].1) <= d by {
                if j < b.len() - 1 {
                    assert(ssdepth(b.drop_last()[j].1) <= d);
                }
            }
        }
    }
}

/// Every statement nests at most `d` deep.
pub open spec fn all_fit(s: Seq<SStmt>, d: nat) -> bool {
    forall|j: int| 0 <= j < s.len() ==> #[trigger] sdepth(s[j]) <= d
}

pub proof fn lemma_cleanup_fit(s: Seq<SStmt>, j: int, expected: i16, d: nat)
    requires
        0 <= j < s.len(),
        all_fit(s, d),
    ensures
        all_fit(cleanup(s, j, expected).0, d),
{
    let r = cleanup(s, j, expected).0;
    assert forall|q: int| 0 <= q < r.len() implies #[trigger] sdepth(r[q]) <= d by {
        if q != j {
            assert(r[q] == s[q]);
        } else {
            assert(sdepth(s[q]) <= d);
        }
    }
}

pub proof fn lemma_cleanup_range_fit(s: Seq<SStmt>, j: int, end: int, expected: i16, handled: Seq<int>, d: nat)
    requires
        0 <= j,
        end <= s.len(),
        all_fit(s, d),
    ensures
        all_fit(cleanup_range(s, j, end, expected, handled).0, d),
    decreases end - j,
{
    if j < end {
        lemma_cleanup_fit(s, j, expected, d);
        lemma_cleanup_len(s, j, expected);
        let (s2, h) = cleanup(s, j, expected);
        lemma_cleanup_range_fit(s2, j + 1, end, expected, if h { handled.push(j) } else { handled }, d);
    }
}

pub proof fn lemma_filter_fit(s: Seq<SStmt>, r: Seq<int>, n: int, d: nat)
    requires
        0 <= n <= s.len(),
        all_fit(s, d),
    ensures
        all_fit(filter_out(s, r, n), d),
    decreases n,
{
    if n > 0 {
        lemma_filter_fit(s, r, n - 1, d);
        let f = filter_out(s, r, n - 1);
        if !r.contains(n - 1) {
            assert forall|q: int| 0 <= q < f.len() + 1 implies #[trigger] sdepth(f.push(s[n - 1])[q]) <= d by {
                if q < f.len() {
                    assert(f.push(s[n - 1])[q] == f[q]);
                } else {
                    assert(sdepth(s[n - 1]) <= d);
                }
            }
        }
    }
}

pub proof fn lemma_call_step_fit(s: Seq<SStmt>, i: int, d: nat)
    requires
        0 <= i < s.len(),
        all_fit(s, d),
    ensures
        all_fit(call_step(s, i).0, d),
{
    let (args, rem0) = push_args(s, i, false, None, 0, Seq::empty(), Seq::empty());
    let target = s[i].kind->Call_0;
    let call_expr = SExpr::Call(Box::new(target), args);
    let expected = crate::ir::wadd(args.len() as i16, 1);
    let r = ret_from(s, i + 1);
    lemma_ret_from(s, i + 1);
    let (s2, used, handled) = if r >= 0 {
        let (ns, rep) = replace_in_stmt(s[r], call_expr);
        let s1 = s.update(r, ns);
        assert(all_fit(s1, d)) by {
            assert forall|q: int| 0 <= q < s1.len() implies #[trigger] sdepth(s1[q]) <= d by {
                if q != r {
                    assert(s1[q] == s[q]);
                } else {
                    assert(sdepth(s[r]) <= d);
                }
            }
        }
        if rep {
            lemma_cleanup_range_len(s1, i + 1, r, expected, Seq::empty());
            lemma_cleanup_range_fit(s1, i + 1, r, expected, Seq::empty(), d);
            let (s3, h1) = cleanup_range(s1, i + 1, r, expected, Seq::empty());
            if r + 1 < s.len() {
                lemma_cleanup_len(s3, r + 1, expected);
                lemma_cleanup_fit(s3, r + 1, expected, d);
                let (s5, hh) = cleanup(s3, r + 1, expected);
                (s5, true, if hh { h1.push(r + 1) } else { h1 })
            } else {
                (s3, true, h1)
            }
        } else {
            (s1, false, Seq::empty())
        }
    } else if i + 1 < s.len() {
        lemma_cleanup_len(s, i + 1, expected);
        lemma_cleanup_fit(s, i + 1, expected, d);
        let (s5, hh) = cleanup(s, i + 1, expected);
        (s5, false, if hh { seq![i + 1] } else { Seq::empty() })
    } else {
        (s, false, Seq::empty())
    };
    let s6 = if !used {
        s2.update(i, SStmt { addr: s2[i].addr, kind: SKind::Call(target, args) })
    } else {
        s2
    };
    assert(all_fit(s6, d)) by {
        assert forall|q: int| 0 <= q < s6.len() implies #[trigger] sdepth(s6[q]) <= d by {
            if used || q != i {
                assert(s6[q] == s2[q]);
            }
        }
    }
    let rm = rem0 + (if used { seq![i] } else { Seq::<int>::empty() }) + handled;
    lemma_filter_fit(s6, rm, s6.len() as int, d);
}

/// Computes `combined_push`.
fn combined_push_of(a: &Expr) -> (b: bool)
    ensures
        b == combined_push(a@),
{
    match a {
        Expr::Add(l, r) => (is_reg(l, 6) && is_imm(r, -1)) || (is_imm(l, -1) && is_reg(r, 6)),
        Expr::Sub(l, r) => is_reg(l, 6) && is_imm(r, 1),
        _ => false,
    }
}

/// Computes `stack_top`.
fn stack_top_of(a: &Expr) -> (b: bool)
    ensures
        b == stack_top(a@),
{
    if is_reg(a, 6) {
        return true;
    }
    match a {
        Expr::Add(l, _) => is_reg(l, 6),
        _ => false,
    }
}

/// Computes `push_args` from a call at index `i`.
fn push_args_exec(v: &Vec<IRStmt>, i: usize) -> (r: (Vec<Expr>, Vec<usize>))
    requires
        i <= v@.len(),
    ensures
        (exprs_view(r.0@), ints(r.1@)) == push_args(stmts_view(v@), i as int, false, None, 0, Seq::empty(), Seq::empty()),
        forall|q: int| 0 <= q < r.1@.len() ==> #[trigger] r.1@[q] < i,
{
    let ghost sv = stmts_view(v@);
    proof {
        lemma_stmts_view(v@);
        assert(exprs_view(Seq::<Expr>::empty()) == Seq::<SExpr>::empty());
        assert(ints(Seq::<usize>::empty()) =~= Seq::<int>::empty());
    }
    let mut args: Vec<Expr> = Vec::new();
    let mut rem: Vec<usize> = Vec::new();
    let mut curr: usize = i;
    let mut state = false;
    let mut arg_val: Option<Expr> = None;
    let mut store_idx: usize = 0;
    let ghost target = push_args(sv, i as int, false, None, 0, Seq::empty(), Seq::empty());
    while curr > 0
        invariant_except_break
            target == push_args(
                sv,
                curr as int,
                state,
                opt_view(arg_val),
                store_idx as int,
                exprs_view(args@),
                ints(rem@),
            ),
        invariant
            curr <= i,
            i <= v@.len(),
            sv == stmts_view(v@),
            sv.len() == v@.len(),
            forall|q: int| 0 <= q < v@.len() ==> #[trigger] sv[q] == stmt_view(v@[q]),
            store_idx < i || (store_idx == 0 && !state),
            forall|q: int| 0 <= q < rem@.len() ==> #[trigger] rem@[q] < i,
        ensures
            target == (exprs_view(args@), ints(rem@)),
        decreases curr,
    {
        curr = curr - 1;
        let ghost a0 = args@;
        let ghost r0 = rem@;
        if !state {
            match &v[curr].kind {
                IRStmtKind::Store(addr, val) => {
                    if combined_push_of(addr) {
                        args.push(val.duplicate());
                        rem.push(curr);
                        proof {
                            assert(args@.drop_last() =~= a0);
                            assert(ints(rem@) =~= ints(r0).push(curr as int));
                        }
                        continue;
                    }
                    if stack_top_of(addr) {
                        arg_val = Some(val.duplicate());
                        store_idx = curr;
                        state = true;
                    } else {
                        break;
                    }
                },
                IRStmtKind::Assign(_, _) => {},
                _ => {
                    break;
                },
            }
        } else {
            match &v[curr].kind {
                IRStmtKind::Assign(d, _) => {
                    if *d == 6 {
                        match arg_val {
                            Some(val) => {
                                args.push(val);
                                rem.push(store_idx);
                                rem.push(curr);
                                arg_val = None;
                                state = false;
                                proof {
                                    assert(args@.drop_last() =~= a0);
                                    assert(ints(rem@) =~= ints(r0).push(store_idx as int).push(curr as int));
                                }
                            },
                            None => {
                                arg_val = None;
                            },
                        }
                    }
                },
                _ => {
                    break;
                },
            }
        }
    }
    (args, rem)
}

/// Computes `has_r6`.
fn has_r6_of(k: &IRStmtKind) -> (b: bool)
    ensures
        b == has_r6(kind_view(*k)),
{
    match k {
        IRStmtKind::Assign(_, e) => contains_r6_load(e),
        IRStmtKind::Store(a, v) => contains_r6_load(a) || contains_r6_load(v),
        _ => false,
    }
}

/// Computes `ret_from`.
fn ret_from_exec(v: &Vec<IRStmt>, j: usize) -> (r: Option<usize>)
    ensures
        r matches Some(x) ==> x < v@.len() && ret_from(stmts_view(v@), j as int) == x,
        r is None ==> ret_from(stmts_view(v@), j as int) == -1,
{
    let ghost sv = stmts_view(v@);
    proof {
        lemma_stmts_view(v@);
    }
    let mut k: usize = j;
    if k > v.len() {
        return None;
    }
    while k < v.len()
        invariant
            j <= k <= v@.len(),
            sv == stmts_view(v@),
            sv.len() == v@.len(),
            forall|q: int| 0 <= q < v@.len() ==> #[trigger] sv[q] == stmt_view(v@[q]),
            ret_from(sv, j as int) == ret_from(sv, k as int),
        decreases v@.len() - k,
    {
        if has_r6_of(&v[k].kind) {
            return Some(k);
        }
        k = k + 1;
    }
    None
}

/// Computes `replace_in_stmt`.
fn replace_in_stmt_exec(st: &IRStmt, rep: &Expr) -> (r: (IRStmt, bool))
    ensures
        (r.0@, r.1) == replace_in_stmt(st@, rep@),
{
    match &st.kind {
        IRStmtKind::Assign(d, e) => {
            let (ne, c) = replace_r6_load(e, rep);
            (IRStmt { addr: st.addr, kind: IRStmtKind::Assign(*d, ne) }, c)
        },
        IRStmtKind::Store(a, v) => {
            let (na, c1) = replace_r6_load(a, rep);
            let (nv, c2) = replace_r6_load(v, rep);
            (IRStmt { addr: st.addr, kind: IRStmtKind::Store(na, nv) }, c1 || c2)
        },
        _ => (st.duplicate(), false),
    }
}

/// Computes `cleanup_val`.
fn cleanup_val_of(e: &Expr) -> (r: i16)
    ensures
        r == cleanup_val(e@),
{
    match e {
        Expr::Add(l, r) => {
            proof {
                assert(e@ == SExpr::Add(Box::new(expr_view(**l)), Box::new(expr_view(**r))));
            }
            if is_reg(l, 6) {
                match &**r {
                    Expr::Immediate(v) => {
                        proof {
                            assert(expr_view(**r) == SExpr::Immediate(*v));
                        }
                        *v
                    },
                    _ => 0,
                }
            } else if is_reg(r, 6) {
                match &**l {
                    Expr::Immediate(v) => {
                        proof {
                            assert(expr_view(**l) == SExpr::Immediate(*v));
                        }
                        *v
                    },
                    _ => 0,
                }
            } else {
                0
            }
        },
        _ => 0,
    }
}

/// Computes `cleanup`.
fn cleanup_exec(v: &mut Vec<IRStmt>, j: usize, expected: i16) -> (handled: bool)
    requires
        j < old(v)@.len(),
    ensures
        (stmts_view(final(v)@), handled) == cleanup(stmts_view(old(v)@), j as int, expected),
        final(v)@.len() == old(v)@.len(),
{
    proof {
        lemma_stmts_view(v@);
    }
    let cv = match &v[j].kind {
        IRStmtKind::Assign(d, e) => {
            if *d != 6 {
                return false;
            }
            cleanup_val_of(e)
        },
        _ => {
            return false;
        },
    };
    if cv == expected {
        true
    } else if cv < expected {
        let diff = cv.wrapping_sub(expected);
        let st = IRStmt {
            addr: v[j].addr,
            kind: IRStmtKind::Assign(6, Expr::Add(Box::new(Expr::Register(6)), Box::new(Expr::Immediate(diff)))),
        };
        proof {
            assert(expr_view(Expr::Immediate(diff)) == SExpr::Immediate(diff));
            assert(expr_view(Expr::Register(6)) == SExpr::Register(6));
            crate::passes::lemma_view_update(v@, j as int, st);
        }
        v.set(j, st);
        false
    } else {
        true
    }
}

/// Whether index `x` is in the list.
fn has_index(r: &Vec<usize>, x: usize) -> (b: bool)
    ensures
        b == ints(r@).contains(x as int),
{
    let mut k: usize = 0;
    while k < r.len()
        invariant
            k <= r@.len(),
            forall|q: int| 0 <= q < k ==> r@[q] != x,
        decreases r@.len() - k,
    {
        if r[k] == x {
            proof {
                assert(ints(r@)[k as int] == x as int);
            }
            return true;
        }
        k = k + 1;
    }
    proof {
        if ints(r@).contains(x as int) {
            let q = choose|q: int| 0 <= q < ints(r@).len() && ints(r@)[q] == x as int;
            assert(r@[q] == x);
        }
    }
    false
}

/// Computes `call_step` on the vector; returns the index to go on from.
fn call_step_exec(v: &mut Vec<IRStmt>, i: usize) -> (next: usize)
    requires
        i < old(v)@.len(),
        stmts_view(old(v)@)[i as int].kind is Call,
    ensures
        (stmts_view(final(v)@), next as int) == call_step(stmts_view(old(v)@), i as int),
{
    let ghost s = stmts_view(v@);
    proof {
        lemma_stmts_view(v@);
    }
    let (args, rem0) = push_args_exec(v, i);
    let target = match &v[i].kind {
        IRStmtKind::Call(t, _) => t.duplicate(),
        _ => Expr::Immediate(0),
    };
    let call_expr = Expr::Call(Box::new(target.duplicate()), duplicate_exprs(&args));
    proof {
        lemma_exprs_view(args@);
    }
    let expected = (#[verifier::truncate] (args.len() as i16)).wrapping_add(1);
    let mut handled: Vec<usize> = Vec::new();
    let mut used = false;
    let n = v.len();
    match ret_from_exec(v, i + 1) {
        Some(r) => {
            proof {
                lemma_ret_from(s, i + 1);
            }
            let (ns, rep) = replace_in_stmt_exec(&v[r], &call_expr);
            proof {
                crate::passes::lemma_view_update(v@, r as int, ns);
            }
            v.set(r, ns);
            if rep {
                used = true;
                let ghost s1 = stmts_view(v@);
                let mut j: usize = i + 1;
                proof {
                    assert(ints(handled@) =~= Seq::<int>::empty());
                }
                while j < r
                    invariant
                        i < j <= r,
                        r < n,
                        v@.len() == n,
                        forall|q: int| 0 <= q < handled@.len() ==> #[trigger] handled@[q] < n,
                        cleanup_range(s1, i + 1, r as int, expected, Seq::empty()) == cleanup_range(
                            stmts_view(v@),
                            j as int,
                            r as int,
                            expected,
                            ints(handled@),
                        ),
                    decreases r - j,
                {
                    let ghost h0 = handled@;
                    let h = cleanup_exec(v, j, expected);
                    if h {
                        handled.push(j);
                        proof {
                            assert(ints(handled@) =~= ints(h0).push(j as int));
                        }
                    }
                    j = j + 1;
                }
                if r + 1 < n {
                    let ghost h0 = handled@;
                    let h = cleanup_exec(v, r + 1, expected);
                    if h {
                        handled.push(r + 1);
                        proof {
                            assert(ints(handled@) =~= ints(h0).push(r + 1));
                        }
                    }
                }
            }
        },
        None => {
            if i + 1 < n {
                let h = cleanup_exec(v, i + 1, expected);
                if h {
                    handled.push(i + 1);
                }
                proof {
                    assert(ints(handled@) =~= if h { seq![i + 1] } else { Seq::<int>::empty() });
                }
            }
        },
    }
    let ghost s2 = stmts_view(v@);
    if !used {
        let a = v[i].addr;
        let st = IRStmt { addr: a, kind: IRStmtKind::Call(target, args) };
        proof {
            lemma_stmts_view(v@);
            crate::passes::lemma_view_update(v@, i as int, st);
        }
        v.set(i, st);
    }
    let ghost s6 = stmts_view(v@);
    let ghost rmv = ints(rem0@) + (if used { seq![i as int] } else { Seq::<int>::empty() }) + ints(handled@);
    let mut rm: Vec<usize> = rem0;
    if used {
        let ghost r0 = rm@;
        rm.push(i);
        proof {
            assert(ints(rm@) =~= ints(r0).push(i as int));
        }
    }
    proof {
        assert(ints(rm@) =~= ints(rem0@) + (if used { seq![i as int] } else { Seq::<int>::empty() }));
    }
    let ghost base = ints(rm@);
    let mut k: usize = 0;
    while k < handled.len()
        invariant
            k <= handled@.len(),
            ints(rm@) == base + ints(handled@).subrange(0, k as int),
        decreases handled@.len() - k,
    {
        let ghost r0 = rm@;
        rm.push(handled[k]);
        proof {
            assert(ints(rm@) =~= ints(r0).push(handled@[k as int] as int));
            assert(ints(handled@).subrange(0, k + 1) =~= ints(handled@).subrange(0, k as int).push(handled@[k as int] as int));
        }
        k = k + 1;
    }
    proof {
        assert(ints(handled@).subrange(0, k as int) =~= ints(handled@));
        assert(ints(rm@) == rmv);
        lemma_stmts_view(v@);
    }
    let mut out: Vec<IRStmt> = Vec::new();
    let mut cnt: usize = 0;
    let mut q: usize = 0;
    while q < v.len()
        invariant
            q <= v@.len(),
            s6 == stmts_view(v@),
            s6.len() == v@.len(),
            forall|x: int| 0 <= x < v@.len() ==> #[trigger] s6[x] == stmt_view(v@[x]),
            ints(rm@) == rmv,
            stmts_view(out@) == filter_out(s6, rmv, q as int),
            cnt == count_in(rmv, if q <= i { q as int } else { i + 1 }),
            cnt <= q,
        decreases v@.len() - q,
    {
        let ghost o0 = out@;
        if !has_index(&rm, q) {
            out.push(v[q].duplicate());
            proof {
                assert(out@.drop_last() =~= o0);
            }
        } else if q <= i {
            cnt = cnt + 1;
        }
        q = q + 1;
    }
    proof {
        lemma_filter_out(s6, rmv, s6.len() as int);
        if q <= i {
        }
        assert(cnt == count_in(rmv, i + 1));
    }
    *v = out;
    if cnt > i {
        1
    } else {
        i - cnt + 1
    }
}

/// Computes `caller_from` from index 0 with budget `d`.
fn caller_from_exec(v: &Vec<IRStmt>, Ghost(d): Ghost<nat>) -> (r: Vec<IRStmt>)
    requires
        ssdepth(stmts_view(v@)) <= d,
    ensures
        stmts_view(r@) == caller_from(stmts_view(v@), 0, d),
        ssdepth(stmts_view(r@)) <= d,
    decreases d, 2int, 0int,
{
    let ghost target = caller_from(stmts_view(v@), 0, d);
    let mut w = duplicate_stmts(v);
    proof {
        lemma_ssdepth(stmts_view(w@), d);
    }
    let mut i: usize = 0;
    while i < w.len()
        invariant
            target == caller_from(stmts_view(w@), i as int, d),
            all_fit(stmts_view(w@), d),
        decreases if i <= stmts_view(w@).len() { stmts_view(w@).len() - i } else { 0 },
    {
        let ghost sv = stmts_view(w@);
        proof {
            lemma_stmts_view(w@);
            assert(sdepth(sv[i as int]) <= d);
        }
        let ns = caller_nested_exec(&w[i], Ghost(d));
        proof {
            crate::passes::lemma_view_update(w@, i as int, ns);
        }
        w.set(i, ns);
        let ghost s1 = stmts_view(w@);
        proof {
            assert(s1 == sv.update(i as int, caller_nested(sv[i as int], d)));
            assert(all_fit(s1, d)) by {
                assert forall|q: int| 0 <= q < s1.len() implies #[trigger] sdepth(s1[q]) <= d by {
                    if q != i {
                        assert(s1[q] == sv[q]);
                    }
                }
            }
        }
        let is_call = match &w[i].kind {
            IRStmtKind::Call(_, _) => true,
            _ => false,
        };
        if is_call {
            proof {
                lemma_call_step(s1, i as int);
                lemma_call_step_fit(s1, i as int, d);
            }
            i = call_step_exec(&mut w, i);
        } else {
            i = i + 1;
        }
    }
    proof {
        lemma_stmts_view(w@);
        lemma_ssdepth(stmts_view(w@), d);
    }
    w
}

/// Computes `caller_nested` with budget `d`.
fn caller_nested_exec(s: &IRStmt, Ghost(d): Ghost<nat>) -> (r: IRStmt)
    requires
        sdepth(s@) <= d,
    ensures
        r@ == caller_nested(s@, d),
        sdepth(r@) <= d,
    decreases d, 1int, 0int,
{
    let ghost d1: nat = (d - 1) as nat;
    match &s.kind {
        IRStmtKind::DoWhile(c, cc, body) => IRStmt {
            addr: s.addr,
            kind: IRStmtKind::DoWhile(duplicate_opt(c), *cc, caller_blocks_exec(body, Ghost(d1))),
        },
        IRStmtKind::While(c, cc, body) => IRStmt {
            addr: s.addr,
            kind: IRStmtKind::While(duplicate_opt(c), *cc, caller_blocks_exec(body, Ghost(d1))),
        },
        IRStmtKind::For(i, c, cc, n, body) => IRStmt {
            addr: s.addr,
            kind: IRStmtKind::For(
                Box::new(i.duplicate()),
                duplicate_opt(c),
                *cc,
                Box::new(n.duplicate()),
                caller_blocks_exec(body, Ghost(d1)),
            ),
        },
        IRStmtKind::If(c, cc, t, f) => {
            let t2 = caller_from_exec(t, Ghost(d1));
            let f2 = match f {
                Some(fs) => Some(caller_from_exec(fs, Ghost(d1))),
                None => None,
            };
            IRStmt { addr: s.addr, kind: IRStmtKind::If(duplicate_opt(c), *cc, t2, f2) }
        },
        _ => s.duplicate(),
    }
}

/// Computes `caller_blocks` with budget `d`.
fn caller_blocks_exec(m: &AddrMap<Vec<IRStmt>>, Ghost(d): Ghost<nat>) -> (r: AddrMap<Vec<IRStmt>>)
    requires
        bdepth(blocks_view(m.entries@)) <= d,
    ensures
        blocks_view(r.entries@) == caller_blocks(blocks_view(m.entries@), d),
        bdepth(blocks_view(r.entries@)) <= d,
        r.key_seq() == m.key_seq(),
        m.wf() ==> r.wf(),
    decreases d, 3int, 0int,
{
    let ghost bv = blocks_view(m.entries@);
    proof {
        lemma_blocks_view(m.entries@);
        lemma_bdepth(bv, d);
    }
    let mut entries: Vec<(u16, Vec<IRStmt>)> = Vec::new();
    let mut i: usize = 0;
    while i < m.entries.len()
        invariant
            i <= m.entries@.len(),
            bv == blocks_view(m.entries@),
            bv.len() == m.entries@.len(),
            forall|q: int| 0 <= q < m.entries@.len() ==> #[trigger] bv[q] == (m.entries@[q].0, stmts_view(m.entries@[q].1@)),
            forall|q: int| 0 <= q < bv.len() ==> #[trigger] ssdepth(bv[q].1) <= d,
            entries@.len() == i,
            forall|q: int| 0 <= q < i ==> #[trigger] entries@[q].0 == m.entries@[q].0,
            blocks_view(entries@) == caller_blocks(bv.subrange(0, i as int), d),
            forall|q: int| 0 <= q < i ==> ssdepth(stmts_view(#[trigger] entries@[q].1@)) <= d,
        decreases m.entries@.len() - i,
    {
        proof {
            assert(ssdepth(bv[i as int].1) <= d);
            let x = bv.subrange(0, i + 1);
            assert(x.drop_last() =~= bv.subrange(0, i as int));
            assert(x.last() == bv[i as int]);
        }
        let v = caller_from_exec(&m.entries[i].1, Ghost(d));
        let ghost e0 = entries@;
        entries.push((m.entries[i].0, v));
        proof {
            assert(entries@.drop_last() =~= e0);
            assert forall|q: int| 0 <= q < i + 1 implies ssdepth(stmts_view(#[trigger] entries@[q].1@)) <= d by {
                if q < i {
                    assert(entries@[q] == e0[q]);
                }
            }
        }
        i = i + 1;
    }
    proof {
        assert(bv.subrange(0, i as int) =~= bv);
    }
    let r = AddrMap { entries };
    proof {
        lemma_blocks_view(r.entries@);
        lemma_bdepth(blocks_view(r.entries@), d);
        assert(r.key_seq() =~= m.key_seq());
        if m.wf() {
            assert forall|x: int, y: int| 0 <= x < y < r.entries@.len() implies #[trigger] r.entries@[x].0
                < #[trigger] r.entries@[y].0 by {
                assert(m.entries@[x].0 < m.entries@[y].0);
            }
        }
    }
    r
}

/// Undoes the stack calling convention at each call site of every block:
/// pushed arguments become call arguments and a read of the return value
/// slot becomes the call (see `caller_from`).
pub fn process_caller(blocks: &mut AddrMap<Vec<IRStmt>>)
    ensures
        blocks_view(final(blocks).entries@) == caller_blocks(
            blocks_view(old(blocks).entries@),
            bdepth(blocks_view(old(blocks).entries@)),
        ),
        final(blocks).key_seq() == old(blocks).key_seq(),
        old(blocks).wf() ==> final(blocks).wf(),
{
    let ghost d = bdepth(blocks_view(blocks.entries@));
    let r = caller_blocks_exec(blocks, Ghost(d));
    *blocks = r;
}

/// Whether every load from the frame pointer R5 in `e` (outside the parts
/// that `rp` leaves) is at an offset below 260, so that its parameter number
/// fits in a byte.
pub open spec fn frame_offsets_small(e: SExpr) -> bool
    decreases e,
{
    match e {
        SExpr::Load(inner) => (match fp_offset(*inner) {
            Some(off) => off < 260,
            None => true,
        }) && frame_offsets_small(*inner),
        SExpr::Add(a, b) => frame_offsets_small(*a) && frame_offsets_small(*b),
        SExpr::Sub(a, b) => frame_offsets_small(*a) && frame_offsets_small(*b),
        SExpr::And(a, b) => frame_offsets_small(*a) && frame_offsets_small(*b),
        SExpr::Not(a) => frame_offsets_small(*a),
        SExpr::Neg(a) => frame_offsets_small(*a),
        _ => true,
    }
}

/// The LC-3 calling convention: parameter `i` sits in memory at R5 + 4 + i.
pub open spec fn params_on_stack(regs: spec_fn(u8) -> i16, params: spec_fn(u8) -> i16, mem: spec_fn(i16) -> i16) -> bool {
    forall|i: u8| #[trigger] params(i) == mem(vstd::wrapping::i16_specs::wrapping_add(regs(5), (i + 4) as i16))
}

/// Turning loads from the frame into parameters keeps the value of an
/// expression wherever the parameters sit where the calling convention puts
/// them (parameter `i` at R5 + 4 + i): a load from R5 + off with off >= 4
/// becomes parameter off - 4, and nothing else changes value.
pub proof fn law_params_from_frame(e: SExpr, regs: spec_fn(u8) -> i16, params: spec_fn(u8) -> i16, mem: spec_fn(i16) -> i16)
    requires
        arith_only(e),
        frame_offsets_small(e),
        params_on_stack(regs, params, mem),
    ensures
        arith_only(rp(e)),
        eval16(rp(e), regs, params, mem) == eval16(e, regs, params, mem),
    decreases e,
{
    match e {
        SExpr::Load(inner) => {
            law_params_from_frame(*inner, regs, params, mem);
            match fp_offset(*inner) {
                Some(off) => {
                    if off >= 4 {
                        let i = (off - 4) as u8;
                        assert(i == off - 4);
                        assert(params(i) == mem(vstd::wrapping::i16_specs::wrapping_add(regs(5), (i + 4) as i16)));
                        assert((i + 4) as i16 == off);
                        match *inner {
                            SExpr::Add(l, r) => {
                                if is_reg_s(*l, 5) {
                                    assert(eval16(*l, regs, params, mem) == regs(5));
                                    assert(eval16(*r, regs, params, mem) == off);
                                } else {
                                    assert(eval16(*r, regs, params, mem) == regs(5));
                                    assert(eval16(*l, regs, params, mem) == off);
                                    assert(vstd::wrapping::i16_specs::wrapping_add(off, regs(5))
                                        == vstd::wrapping::i16_specs::wrapping_add(regs(5), off));
                                }
                            },
                            _ => {},
                        }
                    }
                },
                None => {},
            }
        },
        SExpr::Add(a, b) => {
            law_params_from_frame(*a, regs, params, mem);
            law_params_from_frame(*b, regs, params, mem);
        },
        SExpr::Sub(a, b) => {
            law_params_from_frame(*a, regs, params, mem);
            law_params_from_frame(*b, regs, params, mem);
        },
        SExpr::And(a, b) => {
            law_params_from_frame(*a, regs, params, mem);
            law_params_from_frame(*b, regs, params, mem);
        },
        SExpr::Not(a) => law_params_from_frame(*a, regs, params, mem),
        SExpr::Neg(a) => law_params_from_frame(*a, regs, params, mem),
        _ => {},
    }
}

} // verus!
