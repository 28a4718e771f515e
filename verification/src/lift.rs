use vstd::prelude::*;
use crate::addr_map::AddrMap;
use crate::cfg::BasicBlock;
use crate::disasm::{pc_relative, pc_target};
use crate::ir::{Expr, IRStmt, IRStmtKind, SExpr, SKind, SStmt, blocks_view, expr_view, stmt_view, stmts_view, lemma_blocks_view, lemma_stmts_view};
use crate::lc3::{Instr, Line, Nucleus, Operand, instr_regs_ok, nucleus_regs_ok};
use crate::liveness::{LivenessInfo, addr_plus, dis_regs_ok, reg_bit};
use crate::semantics::eval16;

verus! {

/// An assignment not yet emitted: the register, its expression, and the
/// address of the instruction that made it.
pub type Pending = Seq<(u8, SExpr, u16)>;

/// The model of the pending assignments.
pub open spec fn pend_view(v: Seq<(u8, Expr, u16)>) -> Pending {
    Seq::new(v.len(), |i: int| (v[i].0, expr_view(v[i].1), v[i].2))
}

/// The index of the first pending assignment of `r` at or after `i`, or -1.
pub open spec fn pfind(p: Pending, r: u8, i: int) -> int
    decreases p.len() - i,
{
    if i < 0 || i >= p.len() {
        -1
    } else if p[i].0 == r {
        i
    } else {
        pfind(p, r, i + 1)
    }
}

/// Takes the pending assignment of `r` out of the list, if there is one.
pub open spec fn take(p: Pending, r: u8) -> (Option<(SExpr, u16)>, Pending) {
    let k = pfind(p, r, 0);
    if k >= 0 {
        (Some((p[k].1, p[k].2)), p.remove(k))
    } else {
        (None, p)
    }
}

/// The statement that emits a pending assignment.
pub open spec fn assign_of(x: (u8, SExpr, u16)) -> SStmt {
    SStmt { addr: x.2, kind: SKind::Assign(x.0, x.1) }
}

/// `out` followed by the assignments of `f`, in order.
pub open spec fn emit_all(out: Seq<SStmt>, f: Pending) -> Seq<SStmt>
    decreases f.len(),
{
    if f.len() == 0 {
        out
    } else {
        emit_all(out, f.drop_last()).push(assign_of(f.last()))
    }
}

/// The pending assignments made before address `a`, and the others, each in
/// order.
pub open spec fn flush_split(p: Pending, a: u16) -> (Pending, Pending)
    decreases p.len(),
{
    if p.len() == 0 {
        (Seq::empty(), Seq::empty())
    } else {
        let (f, k) = flush_split(p.drop_last(), a);
        if p.last().2 < a {
            (f.push(p.last()), k)
        } else {
            (f, k.push(p.last()))
        }
    }
}

/// Emits the pending assignments made before `a`, then `r = e` at `a`.
pub open spec fn flush_emit(out: Seq<SStmt>, p: Pending, r: u8, e: SExpr, a: u16) -> (Seq<SStmt>, Pending) {
    let (f, k) = flush_split(p, a);
    (emit_all(out, f).push(SStmt { addr: a, kind: SKind::Assign(r, e) }), k)
}

/// Whether the instruction with facts `info` defines register `r`.
pub open spec fn killed(info: LivenessInfo, r: u8) -> bool {
    info.defs & reg_bit(r) != 0
}

/// Whether register `r` is live after the instruction with facts `info`.
pub open spec fn live_after(info: LivenessInfo, r: u8) -> bool {
    info.live_out & reg_bit(r) != 0
}

/// The operand for a read of `r`: a pending expression of `r` is inlined if
/// the instruction redefines `r` or `r` is dead after it; otherwise it is
/// emitted (with the assignments made before it) and the register is read.
pub open spec fn use_reg(out: Seq<SStmt>, p: Pending, r: u8, info: LivenessInfo) -> (SExpr, Seq<SStmt>, Pending) {
    let (t, p1) = take(p, r);
    match t {
        Some((e, a)) => if killed(info, r) || !live_after(info, r) {
            (e, out, p1)
        } else {
            let (o2, p2) = flush_emit(out, p1, r, e, a);
            (SExpr::Register(r), o2, p2)
        },
        None => (SExpr::Register(r), out, p),
    }
}

/// The operand for a register read twice by one instruction: a pending
/// expression of it is always emitted, and the register is read.
pub open spec fn use_reg_emit(out: Seq<SStmt>, p: Pending, r: u8) -> (SExpr, Seq<SStmt>, Pending) {
    let (t, p1) = take(p, r);
    match t {
        Some((e, a)) => {
            let (o2, p2) = flush_emit(out, p1, r, e, a);
            (SExpr::Register(r), o2, p2)
        },
        None => (SExpr::Register(r), out, p),
    }
}

/// Records `r = e` made at `a` as pending, replacing an older one of `r`.
pub open spec fn define(p: Pending, r: u8, e: SExpr, a: u16) -> Pending {
    let k = pfind(p, r, 0);
    (if k >= 0 { p.remove(k) } else { p }).push((r, e, a))
}

/// The address `target` as an immediate.
pub open spec fn imm_addr(t: u16) -> SExpr {
    SExpr::Immediate(t as i16)
}

/// The operands of `ADD` and `AND`.
pub open spec fn binary_operands(out: Seq<SStmt>, p: Pending, s1: u8, o: Operand, info: LivenessInfo) -> (
    SExpr,
    SExpr,
    Seq<SStmt>,
    Pending,
) {
    let multi = o matches Operand::Reg(r2) && r2 == s1;
    let (op1, o1, p1) = if multi {
        use_reg_emit(out, p, s1)
    } else {
        use_reg(out, p, s1, info)
    };
    match o {
        Operand::Reg(r2) => {
            let (op2, o2, p2) = use_reg(o1, p1, r2, info);
            (op1, op2, o2, p2)
        },
        Operand::Imm(v) => (op1, SExpr::Immediate(v), o1, p1),
    }
}

/// The statements and pending assignments after one instruction at `addr`.
/// Computations and loads become pending assignments; stores are emitted
/// with their operands; control transfers first emit all pending
/// assignments. Other instructions (the named traps among them) change
/// nothing.
pub open spec fn lift_instr(out: Seq<SStmt>, p: Pending, addr: u16, ins: Instr, info: LivenessInfo) -> (
    Seq<SStmt>,
    Pending,
) {
    match ins {
        Instr::Add(d, s1, o) => {
            let (op1, op2, o2, p2) = binary_operands(out, p, s1, o, info);
            (o2, define(p2, d, SExpr::Add(Box::new(op1), Box::new(op2)), addr))
        },
        Instr::And(d, s1, o) => {
            let (op1, op2, o2, p2) = binary_operands(out, p, s1, o, info);
            (o2, define(p2, d, SExpr::And(Box::new(op1), Box::new(op2)), addr))
        },
        Instr::Not(d, s) => {
            let (op, o1, p1) = use_reg(out, p, s, info);
            (o1, define(p1, d, SExpr::Not(Box::new(op)), addr))
        },
        Instr::Ld(d, off) => (out, define(p, d, SExpr::Load(Box::new(imm_addr(pc_target(addr, off)))), addr)),
        Instr::Ldi(d, off) => (
            out,
            define(p, d, SExpr::Load(Box::new(SExpr::Load(Box::new(imm_addr(pc_target(addr, off)))))), addr),
        ),
        Instr::Ldr(d, b, off) => {
            let (bo, o1, p1) = use_reg(out, p, b, info);
            (o1, define(p1, d, SExpr::Load(Box::new(SExpr::Add(Box::new(bo), Box::new(SExpr::Immediate(off))))), addr))
        },
        Instr::Lea(d, off) => (out, define(p, d, imm_addr(pc_target(addr, off)), addr)),
        Instr::St(s, off) => {
            let (so, o1, p1) = use_reg(out, p, s, info);
            (o1.push(SStmt { addr, kind: SKind::Store(imm_addr(pc_target(addr, off)), so) }), p1)
        },
        Instr::Sti(s, off) => {
            let (so, o1, p1) = use_reg(out, p, s, info);
            (o1.push(SStmt { addr, kind: SKind::Store(SExpr::Load(Box::new(imm_addr(pc_target(addr, off)))), so) }), p1)
        },
        Instr::Str(s, b, off) => {
            let (so, o1, p1) = use_reg(out, p, s, info);
            let (bo, o2, p2) = use_reg(o1, p1, b, info);
            (o2.push(SStmt { addr, kind: SKind::Store(SExpr::Add(Box::new(bo), Box::new(SExpr::Immediate(off))), so) }), p2)
        },
        Instr::Br(cc, off) => (
            emit_all(out, p).push(SStmt { addr, kind: SKind::Goto(None, cc, pc_target(addr, off)) }),
            Seq::empty(),
        ),
        Instr::Jmp(b) => (
            emit_all(out, p).push(SStmt { addr, kind: if b == 7 { SKind::Return(None) } else { SKind::Trap(0xFF) } }),
            Seq::empty(),
        ),
        Instr::Jsr(off) => (
            emit_all(out, p).push(SStmt { addr, kind: SKind::Call(imm_addr(pc_target(addr, off)), Seq::empty()) }),
            Seq::empty(),
        ),
        Instr::Jsrr(b) => (
            emit_all(out, p).push(SStmt { addr, kind: SKind::Call(SExpr::Register(b), Seq::empty()) }),
            Seq::empty(),
        ),
        Instr::Ret => (emit_all(out, p).push(SStmt { addr, kind: SKind::Return(None) }), Seq::empty()),
        Instr::Trap(v) => (emit_all(out, p).push(SStmt { addr, kind: SKind::Trap(v) }), Seq::empty()),
        _ => (out, p),
    }
}

/// The statements and pending assignments after the first `i` words of the
/// block at `start`.
pub open spec fn lift_from(dis: Map<u16, Line>, live: Map<u16, LivenessInfo>, start: u16, i: int) -> (
    Seq<SStmt>,
    Pending,
)
    decreases i,
{
    if i <= 0 {
        (Seq::empty(), Seq::empty())
    } else {
        let (o, p) = lift_from(dis, live, start, i - 1);
        let a = addr_plus(start, i - 1);
        if dis.dom().contains(a) && dis[a].nucleus is Instr {
            lift_instr(o, p, a, dis[a].nucleus->Instr_0, live[a])
        } else {
            (o, p)
        }
    }
}

/// The statements of the block at `start` with `len` words: the lifted
/// statements followed by the assignments still pending at its end.
pub open spec fn lift_block(dis: Map<u16, Line>, live: Map<u16, LivenessInfo>, start: u16, len: int) -> Seq<SStmt> {
    let (o, p) = lift_from(dis, live, start, len);
    emit_all(o, p)
}

/// The position of the first pending assignment of `r`.
fn pend_find(p: &Vec<(u8, Expr, u16)>, r: u8) -> (k: Option<usize>)
    ensures
        k matches Some(i) ==> i < p@.len() && pfind(pend_view(p@), r, 0) == i,
        k is None ==> pfind(pend_view(p@), r, 0) == -1,
{
    let ghost pv = pend_view(p@);
    let mut i: usize = 0;
    while i < p.len()
        invariant
            i <= p@.len(),
            pv == pend_view(p@),
            pfind(pv, r, 0) == pfind(pv, r, i as int),
        decreases p@.len() - i,
    {
        if p[i].0 == r {
            return Some(i);
        }
        i = i + 1;
    }
    None
}

proof fn lemma_pend_remove(v: Seq<(u8, Expr, u16)>, k: int)
    requires
        0 <= k < v.len(),
    ensures
        pend_view(v.remove(k)) == pend_view(v).remove(k),
{
    assert(pend_view(v.remove(k)) =~= pend_view(v).remove(k));
}

proof fn lemma_pend_push(v: Seq<(u8, Expr, u16)>, x: (u8, Expr, u16))
    ensures
        pend_view(v.push(x)) == pend_view(v).push((x.0, expr_view(x.1), x.2)),
{
    assert(pend_view(v.push(x)) =~= pend_view(v).push((x.0, expr_view(x.1), x.2)));
}

/// Takes the pending assignment of `r` out of the list.
fn take_pending(p: &mut Vec<(u8, Expr, u16)>, r: u8) -> (t: Option<(Expr, u16)>)
    ensures
        (match t {
            Some((e, a)) => Some((expr_view(e), a)),
            None => None,
        }, pend_view(final(p)@)) == take(pend_view(old(p)@), r),
{
    match pend_find(p, r) {
        Some(k) => {
            proof {
                lemma_pend_remove(p@, k as int);
            }
            let (_, e, a) = p.remove(k);
            Some((e, a))
        },
        None => None,
    }
}

/// Appends the assignments of the pending list `f` to `out`, in order.
fn emit_pending(out: &mut Vec<IRStmt>, f: &Vec<(u8, Expr, u16)>)
    ensures
        stmts_view(final(out)@) == emit_all(stmts_view(old(out)@), pend_view(f@)),
{
    let ghost o0 = stmts_view(out@);
    let ghost fv = pend_view(f@);
    let mut j: usize = 0;
    while j < f.len()
        invariant
            j <= f@.len(),
            fv == pend_view(f@),
            stmts_view(out@) == emit_all(o0, fv.subrange(0, j as int)),
        decreases f@.len() - j,
    {
        let ghost prev = out@;
        let st = IRStmt { addr: f[j].2, kind: IRStmtKind::Assign(f[j].0, f[j].1.duplicate()) };
        proof {
            assert(stmt_view(st) == assign_of(fv[j as int]));
        }
        out.push(st);
        proof {
            assert(out@.drop_last() =~= prev);
            assert(out@.last() == st);
            assert(stmts_view(out@) == stmts_view(prev).push(stmt_view(st)));
            let g = fv.subrange(0, j + 1);
            assert(g.drop_last() =~= fv.subrange(0, j as int));
            assert(g.last() == fv[j as int]);
        }
        j = j + 1;
    }
    proof {
        assert(fv.subrange(0, j as int) =~= fv);
    }
}

/// Emits the pending assignments made before `a`, then `r = e` at `a`.
fn flush_and_emit(out: &mut Vec<IRStmt>, p: &mut Vec<(u8, Expr, u16)>, r: u8, e: Expr, a: u16)
    ensures
        (stmts_view(final(out)@), pend_view(final(p)@)) == flush_emit(
            stmts_view(old(out)@),
            pend_view(old(p)@),
            r,
            expr_view(e),
            a,
        ),
{
    let ghost pv = pend_view(p@);
    let mut f: Vec<(u8, Expr, u16)> = Vec::new();
    let mut k: Vec<(u8, Expr, u16)> = Vec::new();
    let mut i: usize = 0;
    while i < p.len()
        invariant
            i <= p@.len(),
            pv == pend_view(p@),
            (pend_view(f@), pend_view(k@)) == flush_split(pv.subrange(0, i as int), a),
        decreases p@.len() - i,
    {
        let x = (p[i].0, p[i].1.duplicate(), p[i].2);
        proof {
            lemma_pend_push(f@, x);
            lemma_pend_push(k@, x);
            let g = pv.subrange(0, i + 1);
            assert(g.drop_last() =~= pv.subrange(0, i as int));
            assert(g.last() == pv[i as int]);
            assert((x.0, expr_view(x.1), x.2) == pv[i as int]);
        }
        if p[i].2 < a {
            f.push(x);
        } else {
            k.push(x);
        }
        i = i + 1;
    }
    proof {
        assert(pv.subrange(0, i as int) =~= pv);
    }
    emit_pending(out, &f);
    let ghost prev = out@;
    let st = IRStmt { addr: a, kind: IRStmtKind::Assign(r, e) };
    out.push(st);
    proof {
        assert(out@.drop_last() =~= prev);
        assert(out@.last() == st);
        assert(stmts_view(out@) == stmts_view(prev).push(stmt_view(st)));
    }
    *p = k;
}

/// Computes `use_reg`.
fn use_register(out: &mut Vec<IRStmt>, p: &mut Vec<(u8, Expr, u16)>, r: u8, info: LivenessInfo) -> (op: Expr)
    requires
        r < 8,
    ensures
        (expr_view(op), stmts_view(final(out)@), pend_view(final(p)@)) == use_reg(
            stmts_view(old(out)@),
            pend_view(old(p)@),
            r,
            info,
        ),
{
    match take_pending(p, r) {
        Some((e, a)) => {
            let is_killed = (info.defs & (1u8 << r)) != 0;
            let is_live = (info.live_out & (1u8 << r)) != 0;
            if is_killed || !is_live {
                e
            } else {
                flush_and_emit(out, p, r, e, a);
                Expr::Register(r)
            }
        },
        None => Expr::Register(r),
    }
}

/// Computes `use_reg_emit`.
fn use_register_emit(out: &mut Vec<IRStmt>, p: &mut Vec<(u8, Expr, u16)>, r: u8) -> (op: Expr)
    ensures
        (expr_view(op), stmts_view(final(out)@), pend_view(final(p)@)) == use_reg_emit(
            stmts_view(old(out)@),
            pend_view(old(p)@),
            r,
        ),
{
    match take_pending(p, r) {
        Some((e, a)) => {
            flush_and_emit(out, p, r, e, a);
            Expr::Register(r)
        },
        None => Expr::Register(r),
    }
}

/// Computes `define`.
fn define_pending(p: &mut Vec<(u8, Expr, u16)>, r: u8, e: Expr, a: u16)
    ensures
        pend_view(final(p)@) == define(pend_view(old(p)@), r, expr_view(e), a),
{
    match pend_find(p, r) {
        Some(k) => {
            proof {
                lemma_pend_remove(p@, k as int);
            }
            p.remove(k);
        },
        None => {},
    }
    proof {
        lemma_pend_push(p@, (r, e, a));
    }
    p.push((r, e, a));
}

/// Emits all pending assignments, in order, and clears the list.
fn drain_pending(out: &mut Vec<IRStmt>, p: &mut Vec<(u8, Expr, u16)>)
    ensures
        stmts_view(final(out)@) == emit_all(stmts_view(old(out)@), pend_view(old(p)@)),
        final(p)@.len() == 0,
{
    emit_pending(out, p);
    *p = Vec::new();
}

/// Appends a statement.
fn emit(out: &mut Vec<IRStmt>, st: IRStmt)
    ensures
        stmts_view(final(out)@) == stmts_view(old(out)@).push(stmt_view(st)),
{
    let ghost prev = out@;
    out.push(st);
    proof {
        assert(out@.drop_last() =~= prev);
        assert(out@.last() == st);
    }
}

/// The immediate `v`.
fn mk_imm(v: i16) -> (e: Expr)
    ensures
        expr_view(e) == SExpr::Immediate(v),
{
    Expr::Immediate(v)
}

/// The immediate of an address.
fn mk_addr(t: u16) -> (e: Expr)
    ensures
        expr_view(e) == imm_addr(t),
{
    Expr::Immediate(#[verifier::truncate] (t as i16))
}

/// A load from `a`.
fn mk_load(a: Expr) -> (e: Expr)
    ensures
        expr_view(e) == SExpr::Load(Box::new(expr_view(a))),
{
    Expr::Load(Box::new(a))
}

/// The sum `a + b`.
fn mk_sum(a: Expr, b: Expr) -> (e: Expr)
    ensures
        expr_view(e) == SExpr::Add(Box::new(expr_view(a)), Box::new(expr_view(b))),
{
    Expr::Add(Box::new(a), Box::new(b))
}

/// Computes `binary_operands`.
fn binary_operands_of(
    out: &mut Vec<IRStmt>,
    p: &mut Vec<(u8, Expr, u16)>,
    s1: u8,
    o: Operand,
    info: LivenessInfo,
) -> (r: (Expr, Expr))
    requires
        s1 < 8,
        o matches Operand::Reg(r2) ==> r2 < 8,
    ensures
        (expr_view(r.0), expr_view(r.1), stmts_view(final(out)@), pend_view(final(p)@)) == binary_operands(
            stmts_view(old(out)@),
            pend_view(old(p)@),
            s1,
            o,
            info,
        ),
{
    let multi = match o {
        Operand::Reg(r2) => r2 == s1,
        Operand::Imm(_) => false,
    };
    let op1 = if multi {
        use_register_emit(out, p, s1)
    } else {
        use_register(out, p, s1, info)
    };
    let op2 = match o {
        Operand::Reg(r2) => use_register(out, p, r2, info),
        Operand::Imm(v) => Expr::Immediate(v),
    };
    (op1, op2)
}

/// Computes `lift_instr`.
fn lift_instruction(out: &mut Vec<IRStmt>, p: &mut Vec<(u8, Expr, u16)>, addr: u16, ins: Instr, info: LivenessInfo)
    requires
        instr_regs_ok(ins),
    ensures
        (stmts_view(final(out)@), pend_view(final(p)@)) == lift_instr(
            stmts_view(old(out)@),
            pend_view(old(p)@),
            addr,
            ins,
            info,
        ),
{
    match ins {
        Instr::Add(d, s1, o) => {
            let (op1, op2) = binary_operands_of(out, p, s1, o, info);
            define_pending(p, d, Expr::Add(Box::new(op1), Box::new(op2)), addr);
        },
        Instr::And(d, s1, o) => {
            let (op1, op2) = binary_operands_of(out, p, s1, o, info);
            define_pending(p, d, Expr::And(Box::new(op1), Box::new(op2)), addr);
        },
        Instr::Not(d, src) => {
            let op = use_register(out, p, src, info);
            define_pending(p, d, Expr::Not(Box::new(op)), addr);
        },
        Instr::Ld(d, off) => {
            let t = pc_relative(addr, off);
            define_pending(p, d, mk_load(mk_addr(t)), addr);
        },
        Instr::Ldi(d, off) => {
            let t = pc_relative(addr, off);
            define_pending(p, d, mk_load(mk_load(mk_addr(t))), addr);
        },
        Instr::Ldr(d, b, off) => {
            let bo = use_register(out, p, b, info);
            define_pending(p, d, mk_load(mk_sum(bo, mk_imm(off))), addr);
        },
        Instr::Lea(d, off) => {
            let t = pc_relative(addr, off);
            define_pending(p, d, mk_addr(t), addr);
        },
        Instr::St(src, off) => {
            let so = use_register(out, p, src, info);
            let t = pc_relative(addr, off);
            emit(out, IRStmt { addr, kind: IRStmtKind::Store(mk_addr(t), so) });
        },
        Instr::Sti(src, off) => {
            let so = use_register(out, p, src, info);
            let t = pc_relative(addr, off);
            emit(out, IRStmt { addr, kind: IRStmtKind::Store(mk_load(mk_addr(t)), so) });
        },
        Instr::Str(src, b, off) => {
            let so = use_register(out, p, src, info);
            let bo = use_register(out, p, b, info);
            emit(out, IRStmt { addr, kind: IRStmtKind::Store(mk_sum(bo, mk_imm(off)), so) });
        },
        Instr::Br(cc, off) => {
            drain_pending(out, p);
            let t = pc_relative(addr, off);
            emit(out, IRStmt { addr, kind: IRStmtKind::Goto(None, cc, t) });
            proof {
                assert(pend_view(p@) =~= Seq::<(u8, SExpr, u16)>::empty());
            }
        },
        Instr::Jmp(b) => {
            drain_pending(out, p);
            if b == 7 {
                emit(out, IRStmt { addr, kind: IRStmtKind::Return(None) });
            } else {
                emit(out, IRStmt { addr, kind: IRStmtKind::Trap(0xFF) });
            }
            proof {
                assert(pend_view(p@) =~= Seq::<(u8, SExpr, u16)>::empty());
            }
        },
        Instr::Jsr(off) => {
            drain_pending(out, p);
            let t = pc_relative(addr, off);
            let args: Vec<Expr> = Vec::new();
            proof {
                assert(crate::ir::exprs_view(args@) =~= Seq::<SExpr>::empty());
            }
            let st = IRStmt { addr, kind: IRStmtKind::Call(mk_addr(t), args) };
            emit(out, st);
            proof {
                assert(pend_view(p@) =~= Seq::<(u8, SExpr, u16)>::empty());
            }
        },
        Instr::Jsrr(b) => {
            drain_pending(out, p);
            let args: Vec<Expr> = Vec::new();
            proof {
                assert(crate::ir::exprs_view(args@) =~= Seq::<SExpr>::empty());
            }
            let st = IRStmt { addr, kind: IRStmtKind::Call(Expr::Register(b), args) };
            emit(out, st);
            proof {
                assert(pend_view(p@) =~= Seq::<(u8, SExpr, u16)>::empty());
            }
        },
        Instr::Ret => {
            drain_pending(out, p);
            emit(out, IRStmt { addr, kind: IRStmtKind::Return(None) });
            proof {
                assert(pend_view(p@) =~= Seq::<(u8, SExpr, u16)>::empty());
            }
        },
        Instr::Trap(v) => {
            drain_pending(out, p);
            emit(out, IRStmt { addr, kind: IRStmtKind::Trap(v) });
            proof {
                assert(pend_view(p@) =~= Seq::<(u8, SExpr, u16)>::empty());
            }
        },
        _ => {},
    }
}

/// Every instruction of the block at `start` with `len` words has liveness
/// facts.
pub open spec fn block_covered(dis: Map<u16, Line>, live: Map<u16, LivenessInfo>, start: u16, len: int) -> bool {
    forall|i: int|
        0 <= i < len && dis.dom().contains(#[trigger] addr_plus(start, i)) && dis[addr_plus(start, i)].nucleus is Instr
            ==> live.dom().contains(addr_plus(start, i))
}

/// Lifts one block.
fn lift_one_block(start: u16, length: u16, disassembly: &AddrMap<Line>, instr_liveness: &AddrMap<LivenessInfo>) -> (r:
    Vec<IRStmt>)
    requires
        disassembly.wf(),
        instr_liveness.wf(),
        dis_regs_ok(disassembly.map()),
        block_covered(disassembly.map(), instr_liveness.map(), start, length as int),
    ensures
        stmts_view(r@) == lift_block(disassembly.map(), instr_liveness.map(), start, length as int),
{
    let ghost dis = disassembly.map();
    let ghost live = instr_liveness.map();
    let mut out: Vec<IRStmt> = Vec::new();
    let mut pending: Vec<(u8, Expr, u16)> = Vec::new();
    proof {
        assert(stmts_view(out@) =~= Seq::<SStmt>::empty());
        assert(pend_view(pending@) =~= Seq::<(u8, SExpr, u16)>::empty());
    }
    let mut i: u16 = 0;
    while i < length
        invariant
            i <= length,
            disassembly.wf(),
            instr_liveness.wf(),
            dis == disassembly.map(),
            live == instr_liveness.map(),
            dis_regs_ok(dis),
            block_covered(dis, live, start, length as int),
            (stmts_view(out@), pend_view(pending@)) == lift_from(dis, live, start, i as int),
        decreases length - i,
    {
        let addr = start.wrapping_add(i);
        assert(addr == addr_plus(start, i as int));
        match disassembly.get(addr) {
            Some(line) => {
                match line.nucleus {
                    Nucleus::Instr(ins) => {
                        proof {
                            assert(nucleus_regs_ok(dis[addr].nucleus));
                            assert(live.dom().contains(addr_plus(start, i as int)));
                        }
                        match instr_liveness.get(addr) {
                            Some(info) => {
                                lift_instruction(&mut out, &mut pending, addr, ins, *info);
                            },
                            None => {},
                        }
                    },
                    Nucleus::Directive => {},
                }
            },
            None => {},
        }
        i = i + 1;
    }
    emit_pending(&mut out, &pending);
    out
}

/// The lifted statements of each block of an entry sequence.
pub open spec fn lifted_blocks(dis: Map<u16, Line>, live: Map<u16, LivenessInfo>, s: Seq<(u16, BasicBlock)>) -> Seq<
    (u16, Seq<SStmt>),
> {
    Seq::new(s.len(), |k: int| (s[k].0, lift_block(dis, live, s[k].0, s[k].1.length as int)))
}

/// Lifts every block into statements of the intermediate representation,
/// folding computations into the expressions that use them (see
/// `lift_instr`).
pub fn propagate_expressions(
    blocks: &AddrMap<BasicBlock>,
    disassembly: &AddrMap<Line>,
    instr_liveness: &AddrMap<LivenessInfo>,
) -> (r: AddrMap<Vec<IRStmt>>)
    requires
        disassembly.wf(),
        instr_liveness.wf(),
        dis_regs_ok(disassembly.map()),
        forall|k: int|
            0 <= k < blocks.entries@.len() ==> block_covered(
                disassembly.map(),
                instr_liveness.map(),
                #[trigger] blocks.entries@[k].0,
                blocks.entries@[k].1.length as int,
            ),
    ensures
        blocks_view(r.entries@) == lifted_blocks(disassembly.map(), instr_liveness.map(), blocks.entries@),
        r.key_seq() == blocks.key_seq(),
        blocks.wf() ==> r.wf(),
        forall|k: int|
            0 <= k < blocks.entries@.len() ==> lifted_block_ok(
                disassembly.map(),
                blocks.entries@[k].0,
                blocks.entries@[k].1.length as int,
                #[trigger] blocks_view(r.entries@)[k].1,
            ),
{
    let ghost dis = disassembly.map();
    let ghost live = instr_liveness.map();
    let mut entries: Vec<(u16, Vec<IRStmt>)> = Vec::new();
    let mut b: usize = 0;
    while b < blocks.entries.len()
        invariant
            b <= blocks.entries@.len(),
            entries@.len() == b,
            disassembly.wf(),
            instr_liveness.wf(),
            dis == disassembly.map(),
            live == instr_liveness.map(),
            dis_regs_ok(dis),
            forall|k: int|
                0 <= k < blocks.entries@.len() ==> block_covered(
                    dis,
                    live,
                    #[trigger] blocks.entries@[k].0,
                    blocks.entries@[k].1.length as int,
                ),
            forall|k: int| 0 <= k < b ==> #[trigger] entries@[k].0 == blocks.entries@[k].0,
            forall|k: int| 0 <= k < b ==> stmts_view(#[trigger] entries@[k].1@) == lift_block(
                dis,
                live,
                blocks.entries@[k].0,
                blocks.entries@[k].1.length as int,
            ),
        decreases blocks.entries@.len() - b,
    {
        let start = blocks.entries[b].0;
        let length = blocks.entries[b].1.length;
        let stmts = lift_one_block(start, length, disassembly, instr_liveness);
        let ghost e0 = entries@;
        entries.push((start, stmts));
        proof {
            assert forall|k: int| 0 <= k < b + 1 implies stmts_view(#[trigger] entries@[k].1@) == lift_block(
                dis,
                live,
                blocks.entries@[k].0,
                blocks.entries@[k].1.length as int,
            ) by {
                if k < b {
                    assert(entries@[k] == e0[k]);
                }
            }
        }
        b = b + 1;
    }
    let r = AddrMap { entries };
    proof {
        lemma_blocks_view(r.entries@);
        assert(blocks_view(r.entries@) =~= lifted_blocks(dis, live, blocks.entries@));
        assert(r.key_seq() =~= blocks.key_seq());
        assert forall|k: int| 0 <= k < blocks.entries@.len() implies lifted_block_ok(
            dis,
            blocks.entries@[k].0,
            blocks.entries@[k].1.length as int,
            #[trigger] blocks_view(r.entries@)[k].1,
        ) by {
            law_lifted_block_ok(dis, live, blocks.entries@[k].0, blocks.entries@[k].1.length as int);
        }
        if blocks.wf() {
            assert forall|x: int, y: int| 0 <= x < y < r.entries@.len() implies #[trigger] r.entries@[x].0
                < #[trigger] r.entries@[y].0 by {
                assert(blocks.entries@[x].0 < blocks.entries@[y].0);
            }
        }
    }
    r
}

/// Whether every statement of `out` carries an address of `a`.
pub open spec fn stmts_in(out: Seq<SStmt>, a: Set<u16>) -> bool {
    forall|k: int| 0 <= k < out.len() ==> a.contains(#[trigger] out[k].addr)
}

/// Whether every pending assignment of `p` was made at an address of `a`.
pub open spec fn pend_in(p: Pending, a: Set<u16>) -> bool {
    forall|k: int| 0 <= k < p.len() ==> a.contains(#[trigger] p[k].2)
}

proof fn lemma_remove_in(p: Pending, k: int, a: Set<u16>)
    requires
        0 <= k < p.len(),
        pend_in(p, a),
    ensures
        pend_in(p.remove(k), a),
{
    p.remove_ensures(k);
    assert forall|j: int| 0 <= j < p.remove(k).len() implies a.contains(#[trigger] p.remove(k)[j].2) by {
        if j >= k {
            assert(p.remove(k)[j] == p[j + 1]);
        }
    }
}

proof fn lemma_pfind_in(p: Pending, r: u8, i: int)
    requires
        0 <= i,
    ensures
        pfind(p, r, i) >= 0 ==> i <= pfind(p, r, i) < p.len(),
    decreases p.len() - i,
{
    if i < p.len() && p[i].0 != r {
        lemma_pfind_in(p, r, i + 1);
    }
}

proof fn lemma_take_in(p: Pending, r: u8, a: Set<u16>)
    requires
        pend_in(p, a),
    ensures
        pend_in(take(p, r).1, a),
        take(p, r).0 matches Some((_, x)) ==> a.contains(x),
{
    lemma_pfind_in(p, r, 0);
    let k = pfind(p, r, 0);
    if k >= 0 {
        lemma_remove_in(p, k, a);
    }
}

proof fn lemma_emit_all_in(out: Seq<SStmt>, f: Pending, a: Set<u16>)
    requires
        stmts_in(out, a),
        pend_in(f, a),
    ensures
        stmts_in(emit_all(out, f), a),
    decreases f.len(),
{
    if f.len() > 0 {
        assert(pend_in(f.drop_last(), a)) by {
            assert forall|k: int| 0 <= k < f.drop_last().len() implies a.contains(#[trigger] f.drop_last()[k].2) by {
                assert(f.drop_last()[k] == f[k]);
            }
        }
        lemma_emit_all_in(out, f.drop_last(), a);
        assert(a.contains(f[f.len() - 1].2));
    }
}

proof fn lemma_flush_split_in(p: Pending, x: u16, a: Set<u16>)
    requires
        pend_in(p, a),
    ensures
        pend_in(flush_split(p, x).0, a),
        pend_in(flush_split(p, x).1, a),
    decreases p.len(),
{
    if p.len() > 0 {
        assert(pend_in(p.drop_last(), a)) by {
            assert forall|k: int| 0 <= k < p.drop_last().len() implies a.contains(#[trigger] p.drop_last()[k].2) by {
                assert(p.drop_last()[k] == p[k]);
            }
        }
        lemma_flush_split_in(p.drop_last(), x, a);
        assert(a.contains(p[p.len() - 1].2));
    }
}

proof fn lemma_flush_emit_in(out: Seq<SStmt>, p: Pending, r: u8, e: SExpr, x: u16, a: Set<u16>)
    requires
        stmts_in(out, a),
        pend_in(p, a),
        a.contains(x),
    ensures
        stmts_in(flush_emit(out, p, r, e, x).0, a),
        pend_in(flush_emit(out, p, r, e, x).1, a),
{
    lemma_flush_split_in(p, x, a);
    lemma_emit_all_in(out, flush_split(p, x).0, a);
}

proof fn lemma_use_reg_in(out: Seq<SStmt>, p: Pending, r: u8, info: LivenessInfo, emit: bool, a: Set<u16>)
    requires
        stmts_in(out, a),
        pend_in(p, a),
    ensures
        !emit ==> stmts_in(use_reg(out, p, r, info).1, a) && pend_in(use_reg(out, p, r, info).2, a),
        emit ==> stmts_in(use_reg_emit(out, p, r).1, a) && pend_in(use_reg_emit(out, p, r).2, a),
{
    lemma_take_in(p, r, a);
    let (t, p1) = take(p, r);
    if let Some((e, x)) = t {
        lemma_flush_emit_in(out, p1, r, e, x, a);
    }
}

proof fn lemma_define_in(p: Pending, r: u8, e: SExpr, x: u16, a: Set<u16>)
    requires
        pend_in(p, a),
        a.contains(x),
    ensures
        pend_in(define(p, r, e, x), a),
{
    lemma_pfind_in(p, r, 0);
    let k = pfind(p, r, 0);
    let q = if k >= 0 { p.remove(k) } else { p };
    if k >= 0 {
        lemma_remove_in(p, k, a);
    }
    assert forall|j: int| 0 <= j < q.push((r, e, x)).len() implies a.contains(#[trigger] q.push((r, e, x))[j].2) by {
        if j < q.len() {
            assert(q.push((r, e, x))[j] == q[j]);
        }
    }
}

proof fn lemma_lift_instr_in(out: Seq<SStmt>, p: Pending, x: u16, ins: Instr, info: LivenessInfo, a: Set<u16>)
    requires
        stmts_in(out, a),
        pend_in(p, a),
        a.contains(x),
    ensures
        stmts_in(lift_instr(out, p, x, ins, info).0, a),
        pend_in(lift_instr(out, p, x, ins, info).1, a),
{
    lemma_emit_all_in(out, p, a);
    let e = emit_all(out, p);
    assert forall|s: SStmt| s.addr == x implies stmts_in(#[trigger] e.push(s), a) by {
        assert forall|k: int| 0 <= k < e.push(s).len() implies a.contains(#[trigger] e.push(s)[k].addr) by {
            if k < e.len() {
                assert(e.push(s)[k] == e[k]);
            }
        }
    }
    assert(pend_in(Seq::<(u8, SExpr, u16)>::empty(), a));
    match ins {
        Instr::Add(d, s1, o) => {
            lemma_binary_in(out, p, s1, o, info, a);
            let (op1, op2, o2, p2) = binary_operands(out, p, s1, o, info);
            lemma_define_in(p2, d, SExpr::Add(Box::new(op1), Box::new(op2)), x, a);
        },
        Instr::And(d, s1, o) => {
            lemma_binary_in(out, p, s1, o, info, a);
            let (op1, op2, o2, p2) = binary_operands(out, p, s1, o, info);
            lemma_define_in(p2, d, SExpr::And(Box::new(op1), Box::new(op2)), x, a);
        },
        Instr::Not(d, s) => {
            lemma_use_reg_in(out, p, s, info, false, a);
            let (op, o1, p1) = use_reg(out, p, s, info);
            lemma_define_in(p1, d, SExpr::Not(Box::new(op)), x, a);
        },
        Instr::Ld(d, off) => {
            lemma_define_in(p, d, SExpr::Load(Box::new(imm_addr(pc_target(x, off)))), x, a);
        },
        Instr::Ldi(d, off) => {
            lemma_define_in(p, d, SExpr::Load(Box::new(SExpr::Load(Box::new(imm_addr(pc_target(x, off)))))), x, a);
        },
        Instr::Ldr(d, b, off) => {
            lemma_use_reg_in(out, p, b, info, false, a);
            let (bo, o1, p1) = use_reg(out, p, b, info);
            lemma_define_in(p1, d, SExpr::Load(Box::new(SExpr::Add(Box::new(bo), Box::new(SExpr::Immediate(off))))), x, a);
        },
        Instr::Lea(d, off) => {
            lemma_define_in(p, d, imm_addr(pc_target(x, off)), x, a);
        },
        Instr::St(s, off) => {
            lemma_use_reg_in(out, p, s, info, false, a);
            lemma_push_in(use_reg(out, p, s, info).1, x, a);
        },
        Instr::Sti(s, off) => {
            lemma_use_reg_in(out, p, s, info, false, a);
            lemma_push_in(use_reg(out, p, s, info).1, x, a);
        },
        Instr::Str(s, b, off) => {
            lemma_use_reg_in(out, p, s, info, false, a);
            let (so, o1, p1) = use_reg(out, p, s, info);
            lemma_use_reg_in(o1, p1, b, info, false, a);
            lemma_push_in(use_reg(o1, p1, b, info).1, x, a);
        },
        _ => {},
    }
}

proof fn lemma_push_in(out: Seq<SStmt>, x: u16, a: Set<u16>)
    requires
        stmts_in(out, a),
        a.contains(x),
    ensures
        forall|s: SStmt| s.addr == x ==> stmts_in(#[trigger] out.push(s), a),
{
    assert forall|s: SStmt| s.addr == x implies stmts_in(#[trigger] out.push(s), a) by {
        assert forall|k: int| 0 <= k < out.push(s).len() implies a.contains(#[trigger] out.push(s)[k].addr) by {
            if k < out.len() {
                assert(out.push(s)[k] == out[k]);
            }
        }
    }
}

proof fn lemma_binary_in(out: Seq<SStmt>, p: Pending, s1: u8, o: Operand, info: LivenessInfo, a: Set<u16>)
    requires
        stmts_in(out, a),
        pend_in(p, a),
    ensures
        stmts_in(binary_operands(out, p, s1, o, info).2, a),
        pend_in(binary_operands(out, p, s1, o, info).3, a),
{
    lemma_use_reg_in(out, p, s1, info, true, a);
    lemma_use_reg_in(out, p, s1, info, false, a);
    let multi = o matches Operand::Reg(r2) && r2 == s1;
    let (op1, o1, p1) = if multi {
        use_reg_emit(out, p, s1)
    } else {
        use_reg(out, p, s1, info)
    };
    if let Operand::Reg(r2) = o {
        lemma_use_reg_in(o1, p1, r2, info, false, a);
    }
}

/// The addresses of the first `i` words of the block at `start`.
pub open spec fn block_words(start: u16, i: int) -> Set<u16> {
    Set::new(|x: u16| exists|j: int| 0 <= j < i && addr_plus(start, j) == x)
}

proof fn lemma_lift_from_in(dis: Map<u16, Line>, live: Map<u16, LivenessInfo>, start: u16, i: int, len: int)
    requires
        i <= len,
    ensures
        stmts_in(lift_from(dis, live, start, i).0, block_words(start, len)),
        pend_in(lift_from(dis, live, start, i).1, block_words(start, len)),
    decreases i,
{
    let a = block_words(start, len);
    if i > 0 {
        lemma_lift_from_in(dis, live, start, i - 1, len);
        let (o, p) = lift_from(dis, live, start, i - 1);
        let x = addr_plus(start, i - 1);
        assert(a.contains(x));
        if dis.dom().contains(x) && dis[x].nucleus is Instr {
            lemma_lift_instr_in(o, p, x, dis[x].nucleus->Instr_0, live[x], a);
        }
    }
}

/// Each statement that `propagate_expressions` gives a block (see its
/// contract) carries the address of one of the block's words, and the blocks
/// keep their start addresses; where the block does not wrap around the end
/// of memory, its statements' addresses lie in `start .. start + length`.
pub proof fn law_propagate_expressions(dis: Map<u16, Line>, live: Map<u16, LivenessInfo>, s: Seq<(u16, BasicBlock)>)
    ensures
        lifted_blocks(dis, live, s).len() == s.len(),
        forall|k: int| 0 <= k < s.len() ==> (#[trigger] lifted_blocks(dis, live, s)[k]).0 == s[k].0,
        forall|k: int, j: int|
            0 <= k < s.len() && 0 <= j < lifted_blocks(dis, live, s)[k].1.len() ==> {
                let a = (#[trigger] lifted_blocks(dis, live, s)[k].1[j]).addr;
                &&& exists|w: int| 0 <= w < s[k].1.length && addr_plus(s[k].0, w) == a
                &&& s[k].0 + s[k].1.length <= 0x10000 ==> s[k].0 <= a < s[k].0 + s[k].1.length
            },
{
    let r = lifted_blocks(dis, live, s);
    assert forall|k: int, j: int| 0 <= k < s.len() && 0 <= j < r[k].1.len() implies {
        let a = (#[trigger] r[k].1[j]).addr;
        &&& exists|w: int| 0 <= w < s[k].1.length && addr_plus(s[k].0, w) == a
        &&& s[k].0 + s[k].1.length <= 0x10000 ==> s[k].0 <= a < s[k].0 + s[k].1.length
    } by {
        let start = s[k].0;
        let len = s[k].1.length as int;
        lemma_lift_from_in(dis, live, start, len, len);
        let (o, p) = lift_from(dis, live, start, len);
        lemma_emit_all_in(o, p, block_words(start, len));
        assert(r[k].1 == lift_block(dis, live, start, len));
        let a = r[k].1[j].addr;
        assert(block_words(start, len).contains(a));
        let w = choose|w: int| 0 <= w < len && addr_plus(start, w) == a;
        if start + len <= 0x10000 {
            assert((start as int + w) % 0x10000 == start + w);
        }
    }
}

/// Whether an instruction transfers control: a branch, jump, call, return
/// or numbered trap.
pub open spec fn is_transfer(ins: Instr) -> bool {
    ins is Br || ins is Jmp || ins is Jsr || ins is Jsrr || ins is Ret || ins is Trap
}

/// Whether a statement transfers control.
pub open spec fn transfer_stmt(s: SStmt) -> bool {
    s.kind is Goto || s.kind is Call || s.kind is Return || s.kind is Trap
}

/// Whether the word at `a` holds an instruction that transfers control.
pub open spec fn transfer_word(dis: Map<u16, Line>, a: u16) -> bool {
    dis.dom().contains(a) && match dis[a].nucleus {
        Nucleus::Instr(ins) => is_transfer(ins),
        Nucleus::Directive => false,
    }
}

/// Whether each statement of `out` that transfers control has the address
/// of a word that holds an instruction that transfers control.
pub open spec fn transfers_from(out: Seq<SStmt>, dis: Map<u16, Line>) -> bool {
    forall|k: int|
        0 <= k < out.len() && transfer_stmt(#[trigger] out[k]) ==> transfer_word(dis, out[k].addr)
}

proof fn lemma_push_plain(out: Seq<SStmt>, s: SStmt, dis: Map<u16, Line>)
    requires
        transfers_from(out, dis),
        !transfer_stmt(s),
    ensures
        transfers_from(out.push(s), dis),
{
    assert forall|k: int| 0 <= k < out.push(s).len() && transfer_stmt(#[trigger] out.push(s)[k]) implies transfer_word(dis, out.push(s)[k].addr) by {
        assert(out.push(s)[k] == out[k]);
    }
}

proof fn lemma_emit_all_plain(out: Seq<SStmt>, f: Pending, dis: Map<u16, Line>)
    requires
        transfers_from(out, dis),
    ensures
        transfers_from(emit_all(out, f), dis),
    decreases f.len(),
{
    if f.len() > 0 {
        lemma_emit_all_plain(out, f.drop_last(), dis);
        lemma_push_plain(emit_all(out, f.drop_last()), assign_of(f.last()), dis);
    }
}

proof fn lemma_use_reg_plain(out: Seq<SStmt>, p: Pending, r: u8, info: LivenessInfo, dis: Map<u16, Line>)
    requires
        transfers_from(out, dis),
    ensures
        transfers_from(use_reg(out, p, r, info).1, dis),
        transfers_from(use_reg_emit(out, p, r).1, dis),
{
    let (t, p1) = take(p, r);
    if let Some((e, a)) = t {
        let (f, k) = flush_split(p1, a);
        lemma_emit_all_plain(out, f, dis);
        lemma_push_plain(emit_all(out, f), SStmt { addr: a, kind: SKind::Assign(r, e) }, dis);
    }
}

proof fn lemma_binary_plain(out: Seq<SStmt>, p: Pending, s1: u8, o: Operand, info: LivenessInfo, dis: Map<u16, Line>)
    requires
        transfers_from(out, dis),
    ensures
        transfers_from(binary_operands(out, p, s1, o, info).2, dis),
{
    lemma_use_reg_plain(out, p, s1, info, dis);
    let multi = o matches Operand::Reg(r2) && r2 == s1;
    let (op1, o1, p1) = if multi {
        use_reg_emit(out, p, s1)
    } else {
        use_reg(out, p, s1, info)
    };
    if let Operand::Reg(r2) = o {
        lemma_use_reg_plain(o1, p1, r2, info, dis);
    }
}

/// Lifting an instruction adds a statement that transfers control only
/// where the instruction does, at its address; after it, nothing is
/// pending, and that statement is the last one.
proof fn lemma_lift_instr_transfers(out: Seq<SStmt>, p: Pending, x: u16, ins: Instr, info: LivenessInfo, dis: Map<u16, Line>)
    requires
        transfers_from(out, dis),
        dis.dom().contains(x),
        dis[x].nucleus == Nucleus::Instr(ins),
    ensures
        transfers_from(lift_instr(out, p, x, ins, info).0, dis),
        is_transfer(ins) ==> lift_instr(out, p, x, ins, info).1.len() == 0 && lift_instr(out, p, x, ins, info).0.len() > 0
            && lift_instr(out, p, x, ins, info).0.last().addr == x && transfer_stmt(lift_instr(out, p, x, ins, info).0.last()),
{
    lemma_emit_all_plain(out, p, dis);
    let e = emit_all(out, p);
    match ins {
        Instr::Add(d, s1, o) => lemma_binary_plain(out, p, s1, o, info, dis),
        Instr::And(d, s1, o) => lemma_binary_plain(out, p, s1, o, info, dis),
        Instr::Not(d, s) => lemma_use_reg_plain(out, p, s, info, dis),
        Instr::Ldr(d, b, off) => lemma_use_reg_plain(out, p, b, info, dis),
        Instr::St(s, off) => {
            lemma_use_reg_plain(out, p, s, info, dis);
            let o1 = use_reg(out, p, s, info).1;
            let so = use_reg(out, p, s, info).0;
            lemma_push_plain(o1, SStmt { addr: x, kind: SKind::Store(imm_addr(pc_target(x, off)), so) }, dis);
        },
        Instr::Sti(s, off) => {
            lemma_use_reg_plain(out, p, s, info, dis);
            let o1 = use_reg(out, p, s, info).1;
            let so = use_reg(out, p, s, info).0;
            lemma_push_plain(o1, SStmt { addr: x, kind: SKind::Store(SExpr::Load(Box::new(imm_addr(pc_target(x, off)))), so) }, dis);
        },
        Instr::Str(s, b, off) => {
            lemma_use_reg_plain(out, p, s, info, dis);
            let (so, o1, p1) = use_reg(out, p, s, info);
            lemma_use_reg_plain(o1, p1, b, info, dis);
            let (bo, o2, p2) = use_reg(o1, p1, b, info);
            lemma_push_plain(o2, SStmt { addr: x, kind: SKind::Store(SExpr::Add(Box::new(bo), Box::new(SExpr::Immediate(off))), so) }, dis);
        },
        _ => {
            if is_transfer(ins) {
                let r = lift_instr(out, p, x, ins, info).0;
                assert(r.len() == e.len() + 1);
                assert forall|k: int| 0 <= k < r.len() && transfer_stmt(#[trigger] r[k]) implies transfer_word(dis, r[k].addr) by {
                    if k < e.len() {
                        assert(r[k] == e[k]);
                    }
                }
            }
        },
    }
}

proof fn lemma_lift_from_transfers(dis: Map<u16, Line>, live: Map<u16, LivenessInfo>, start: u16, i: int)
    ensures
        transfers_from(lift_from(dis, live, start, i).0, dis),
    decreases i,
{
    if i > 0 {
        lemma_lift_from_transfers(dis, live, start, i - 1);
        let (o, p) = lift_from(dis, live, start, i - 1);
        let a = addr_plus(start, i - 1);
        if dis.dom().contains(a) && dis[a].nucleus is Instr {
            lemma_lift_instr_transfers(o, p, a, dis[a].nucleus->Instr_0, live[a], dis);
        }
    }
}

/// Control transfers in the blocks that `propagate_expressions` lifts (see
/// its contract): a statement that transfers control (a goto, call, return
/// or trap) has the address of a word that holds a branch, jump, call,
/// return or trap; and a block whose last word holds one ends with the
/// statement of that instruction, all pending assignments before it.
pub proof fn law_lift_block_transfers(dis: Map<u16, Line>, live: Map<u16, LivenessInfo>, start: u16, len: int)
    requires
        len > 0,
    ensures
        transfers_from(lift_block(dis, live, start, len), dis),
        ({
            let a = addr_plus(start, len - 1);
            transfer_word(dis, a) ==> {
                let s = lift_block(dis, live, start, len);
                s.len() > 0 && s.last().addr == a && transfer_stmt(s.last())
            }
        }),
{
    lemma_lift_from_transfers(dis, live, start, len);
    let (o, p) = lift_from(dis, live, start, len);
    lemma_emit_all_plain(o, p, dis);
    let (o0, p0) = lift_from(dis, live, start, len - 1);
    let a = addr_plus(start, len - 1);
    lemma_lift_from_transfers(dis, live, start, len - 1);
    if dis.dom().contains(a) && dis[a].nucleus is Instr {
        lemma_lift_instr_transfers(o0, p0, a, dis[a].nucleus->Instr_0, live[a], dis);
    }
}

/// Whether `out2` is `out` followed by statements that carry addresses of
/// `a`.
pub open spec fn ext_in(out: Seq<SStmt>, out2: Seq<SStmt>, a: Set<u16>) -> bool {
    &&& out2.len() >= out.len()
    &&& out2.subrange(0, out.len() as int) == out
    &&& forall|k: int| out.len() <= k < out2.len() ==> a.contains(#[trigger] out2[k].addr)
}

proof fn lemma_ext_refl(out: Seq<SStmt>, a: Set<u16>)
    ensures
        ext_in(out, out, a),
{
    assert(out.subrange(0, out.len() as int) =~= out);
}

proof fn lemma_ext_trans(o1: Seq<SStmt>, o2: Seq<SStmt>, o3: Seq<SStmt>, a: Set<u16>)
    requires
        ext_in(o1, o2, a),
        ext_in(o2, o3, a),
    ensures
        ext_in(o1, o3, a),
{
    assert(o3.subrange(0, o1.len() as int) =~= o2.subrange(0, o1.len() as int)) by {
        assert forall|k: int| 0 <= k < o1.len() implies o3.subrange(0, o1.len() as int)[k] == o2.subrange(0, o1.len() as int)[k] by {
            assert(o3[k] == o3.subrange(0, o2.len() as int)[k]);
        }
    }
    assert forall|k: int| o1.len() <= k < o3.len() implies a.contains(#[trigger] o3[k].addr) by {
        if k < o2.len() {
            assert(o3[k] == o3.subrange(0, o2.len() as int)[k]);
            assert(o2[k] == o3[k]);
        }
    }
}

proof fn lemma_ext_push(out: Seq<SStmt>, s: SStmt, a: Set<u16>)
    requires
        a.contains(s.addr),
    ensures
        ext_in(out, out.push(s), a),
{
    assert(out.push(s).subrange(0, out.len() as int) =~= out);
}

proof fn lemma_emit_all_ext(out: Seq<SStmt>, f: Pending, a: Set<u16>)
    requires
        pend_in(f, a),
    ensures
        ext_in(out, emit_all(out, f), a),
    decreases f.len(),
{
    if f.len() == 0 {
        lemma_ext_refl(out, a);
    } else {
        assert(pend_in(f.drop_last(), a)) by {
            assert forall|k: int| 0 <= k < f.drop_last().len() implies a.contains(#[trigger] f.drop_last()[k].2) by {
                assert(f.drop_last()[k] == f[k]);
            }
        }
        lemma_emit_all_ext(out, f.drop_last(), a);
        assert(a.contains(f[f.len() - 1].2));
        lemma_ext_push(emit_all(out, f.drop_last()), assign_of(f.last()), a);
        lemma_ext_trans(out, emit_all(out, f.drop_last()), emit_all(out, f), a);
    }
}

proof fn lemma_use_reg_ext(out: Seq<SStmt>, p: Pending, r: u8, info: LivenessInfo, a: Set<u16>)
    requires
        pend_in(p, a),
    ensures
        ext_in(out, use_reg(out, p, r, info).1, a),
        pend_in(use_reg(out, p, r, info).2, a),
        ext_in(out, use_reg_emit(out, p, r).1, a),
        pend_in(use_reg_emit(out, p, r).2, a),
{
    lemma_take_in(p, r, a);
    lemma_ext_refl(out, a);
    let (t, p1) = take(p, r);
    if let Some((e, x)) = t {
        lemma_flush_split_in(p1, x, a);
        let f = flush_split(p1, x).0;
        lemma_emit_all_ext(out, f, a);
        lemma_ext_push(emit_all(out, f), SStmt { addr: x, kind: SKind::Assign(r, e) }, a);
        lemma_ext_trans(out, emit_all(out, f), emit_all(out, f).push(SStmt { addr: x, kind: SKind::Assign(r, e) }), a);
    }
}

proof fn lemma_binary_ext(out: Seq<SStmt>, p: Pending, s1: u8, o: Operand, info: LivenessInfo, a: Set<u16>)
    requires
        pend_in(p, a),
    ensures
        ext_in(out, binary_operands(out, p, s1, o, info).2, a),
        pend_in(binary_operands(out, p, s1, o, info).3, a),
{
    lemma_use_reg_ext(out, p, s1, info, a);
    let multi = o matches Operand::Reg(r2) && r2 == s1;
    let (op1, o1, p1) = if multi {
        use_reg_emit(out, p, s1)
    } else {
        use_reg(out, p, s1, info)
    };
    if let Operand::Reg(r2) = o {
        lemma_use_reg_ext(o1, p1, r2, info, a);
        lemma_ext_trans(out, o1, use_reg(o1, p1, r2, info).1, a);
    }
}

proof fn lemma_lift_instr_ext(out: Seq<SStmt>, p: Pending, x: u16, ins: Instr, info: LivenessInfo, a: Set<u16>)
    requires
        pend_in(p, a),
        a.contains(x),
    ensures
        ext_in(out, lift_instr(out, p, x, ins, info).0, a),
        pend_in(lift_instr(out, p, x, ins, info).1, a),
{
    lemma_ext_refl(out, a);
    lemma_emit_all_ext(out, p, a);
    let e = emit_all(out, p);
    assert forall|s: SStmt| s.addr == x implies ext_in(out, #[trigger] e.push(s), a) by {
        lemma_ext_push(e, s, a);
        lemma_ext_trans(out, e, e.push(s), a);
    }
    assert(pend_in(Seq::<(u8, SExpr, u16)>::empty(), a));
    match ins {
        Instr::Add(d, s1, o) => {
            lemma_binary_ext(out, p, s1, o, info, a);
            let (op1, op2, o2, p2) = binary_operands(out, p, s1, o, info);
            lemma_define_in(p2, d, SExpr::Add(Box::new(op1), Box::new(op2)), x, a);
        },
        Instr::And(d, s1, o) => {
            lemma_binary_ext(out, p, s1, o, info, a);
            let (op1, op2, o2, p2) = binary_operands(out, p, s1, o, info);
            lemma_define_in(p2, d, SExpr::And(Box::new(op1), Box::new(op2)), x, a);
        },
        Instr::Not(d, s) => {
            lemma_use_reg_ext(out, p, s, info, a);
            let (op, o1, p1) = use_reg(out, p, s, info);
            lemma_define_in(p1, d, SExpr::Not(Box::new(op)), x, a);
        },
        Instr::Ld(d, off) => {
            lemma_define_in(p, d, SExpr::Load(Box::new(imm_addr(pc_target(x, off)))), x, a);
        },
        Instr::Ldi(d, off) => {
            lemma_define_in(p, d, SExpr::Load(Box::new(SExpr::Load(Box::new(imm_addr(pc_target(x, off)))))), x, a);
        },
        Instr::Ldr(d, b, off) => {
            lemma_use_reg_ext(out, p, b, info, a);
            let (bo, o1, p1) = use_reg(out, p, b, info);
            lemma_define_in(p1, d, SExpr::Load(Box::new(SExpr::Add(Box::new(bo), Box::new(SExpr::Immediate(off))))), x, a);
        },
        Instr::Lea(d, off) => {
            lemma_define_in(p, d, imm_addr(pc_target(x, off)), x, a);
        },
        Instr::St(s, off) => {
            lemma_use_reg_ext(out, p, s, info, a);
            let (so, o1, p1) = use_reg(out, p, s, info);
            let st = SStmt { addr: x, kind: SKind::Store(imm_addr(pc_target(x, off)), so) };
            lemma_ext_push(o1, st, a);
            lemma_ext_trans(out, o1, o1.push(st), a);
        },
        Instr::Sti(s, off) => {
            lemma_use_reg_ext(out, p, s, info, a);
            let (so, o1, p1) = use_reg(out, p, s, info);
            let st = SStmt { addr: x, kind: SKind::Store(SExpr::Load(Box::new(imm_addr(pc_target(x, off)))), so) };
            lemma_ext_push(o1, st, a);
            lemma_ext_trans(out, o1, o1.push(st), a);
        },
        Instr::Str(s, b, off) => {
            lemma_use_reg_ext(out, p, s, info, a);
            let (so, o1, p1) = use_reg(out, p, s, info);
            lemma_use_reg_ext(o1, p1, b, info, a);
            let (bo, o2, p2) = use_reg(o1, p1, b, info);
            lemma_ext_trans(out, o1, o2, a);
            let st = SStmt { addr: x, kind: SKind::Store(SExpr::Add(Box::new(bo), Box::new(SExpr::Immediate(off))), so) };
            lemma_ext_push(o2, st, a);
            lemma_ext_trans(out, o2, o2.push(st), a);
        },
        _ => {},
    }
}

/// The addresses of the words `lo .. hi` of the block at `start`.
pub open spec fn words_between(start: u16, lo: int, hi: int) -> Set<u16> {
    Set::new(|x: u16| exists|j: int| lo <= j < hi && addr_plus(start, j) == x)
}

proof fn lemma_lift_from_ext(dis: Map<u16, Line>, live: Map<u16, LivenessInfo>, start: u16, m: int, i: int, len: int)
    requires
        0 <= m <= i <= len,
        lift_from(dis, live, start, m).1.len() == 0,
    ensures
        ext_in(lift_from(dis, live, start, m).0, lift_from(dis, live, start, i).0, words_between(start, m, len)),
        pend_in(lift_from(dis, live, start, i).1, words_between(start, m, len)),
    decreases i,
{
    let a = words_between(start, m, len);
    if i == m {
        lemma_ext_refl(lift_from(dis, live, start, m).0, a);
    } else {
        lemma_lift_from_ext(dis, live, start, m, i - 1, len);
        let (o, p) = lift_from(dis, live, start, i - 1);
        let x = addr_plus(start, i - 1);
        assert(a.contains(x));
        if dis.dom().contains(x) && dis[x].nucleus is Instr {
            lemma_lift_instr_ext(o, p, x, dis[x].nucleus->Instr_0, live[x], a);
            lemma_ext_trans(lift_from(dis, live, start, m).0, o, lift_from(dis, live, start, i).0, a);
        }
    }
}

proof fn lemma_transfer_step(out: Seq<SStmt>, p: Pending, x: u16, ins: Instr, info: LivenessInfo)
    requires
        is_transfer(ins),
    ensures
        lift_instr(out, p, x, ins, info).0 == emit_all(out, p).push(lift_instr(out, p, x, ins, info).0.last()),
        lift_instr(out, p, x, ins, info).1.len() == 0,
{
}

/// The step at a word that transfers control: everything pending is
/// emitted, then the word's statement, and nothing is left pending.
proof fn lemma_transfer_at(dis: Map<u16, Line>, live: Map<u16, LivenessInfo>, start: u16, w: int)
    requires
        0 <= w,
        transfer_word(dis, addr_plus(start, w)),
    ensures
        lift_from(dis, live, start, w + 1).0.len() >= 1,
        lift_from(dis, live, start, w + 1).0.drop_last() == emit_all(lift_from(dis, live, start, w).0, lift_from(dis, live, start, w).1),
        lift_from(dis, live, start, w + 1).0.last().addr == addr_plus(start, w),
        transfer_stmt(lift_from(dis, live, start, w + 1).0.last()),
        lift_from(dis, live, start, w + 1).1.len() == 0,
{
    let a = addr_plus(start, w);
    let prev = lift_from(dis, live, start, w);
    assert(dis[a].nucleus is Instr);
    let ins = dis[a].nucleus->Instr_0;
    assert(is_transfer(ins));
    lemma_lift_from_transfers(dis, live, start, w);
    let r = lift_instr(prev.0, prev.1, a, ins, live[a]);
    assert(lift_from(dis, live, start, w + 1) == r);
    lemma_transfer_step(prev.0, prev.1, a, ins, live[a]);
    lemma_lift_instr_transfers(prev.0, prev.1, a, ins, live[a], dis);
    lemma_push_drop(emit_all(prev.0, prev.1), r.0.last());
}

proof fn lemma_push_drop(e: Seq<SStmt>, y: SStmt)
    ensures
        e.push(y).drop_last() == e,
{
    assert(e.push(y).drop_last() =~= e);
}

/// The positions of a block's statements around the statement of one word:
/// before it, addresses of `before`; after it, of `after`.
proof fn lemma_position_core(e: Seq<SStmt>, x: SStmt, ss: Seq<SStmt>, before: Set<u16>, after: Set<u16>)
    requires
        stmts_in(e, before),
        ext_in(e.push(x), ss, after),
    ensures
        e.len() < ss.len(),
        ss[e.len() as int] == x,
        forall|j: int| 0 <= j < e.len() ==> before.contains(#[trigger] ss[j].addr),
        forall|j: int| e.len() < j < ss.len() ==> after.contains(#[trigger] ss[j].addr),
{
    let o1 = e.push(x);
    assert(ss.subrange(0, o1.len() as int)[e.len() as int] == ss[e.len() as int]);
    assert forall|j: int| 0 <= j < e.len() implies before.contains(#[trigger] ss[j].addr) by {
        assert(ss.subrange(0, o1.len() as int)[j] == ss[j]);
        assert(o1[j] == e[j]);
    }
}

/// Where the statements `ss` of the block at `start` with `len` words hold
/// the statement of word `w`: at some position `t` a statement transfers
/// control with the word's address; the statements before it carry
/// addresses of earlier words and those after it of later words; and where
/// the block does not wrap around the end of memory, those before have lower
/// addresses, those after higher ones, and no other statement that
/// transfers control has its address.
pub open spec fn transfer_positioned(ss: Seq<SStmt>, start: u16, len: int, w: int) -> bool {
    let a = addr_plus(start, w);
    exists|t: int|
        0 <= t < ss.len() && ss[t].addr == a && transfer_stmt(ss[t])
            && (forall|j: int| 0 <= j < t ==> words_between(start, 0, w).contains(#[trigger] ss[j].addr))
            && (forall|j: int| t < j < ss.len() ==> words_between(start, w + 1, len).contains(#[trigger] ss[j].addr))
            && (start + len <= 0x10000 ==> (forall|j: int| 0 <= j < t ==> #[trigger] ss[j].addr < a)
                && (forall|j: int| t < j < ss.len() ==> #[trigger] ss[j].addr > a)
                && (forall|j: int| 0 <= j < ss.len() && j != t && transfer_stmt(#[trigger] ss[j]) ==> ss[j].addr != a))
}

/// What lifting keeps of the block at `start` with `len` words (see
/// `propagate_expressions`): every statement carries the address of one of
/// its words; every statement that transfers control has the address of a
/// word that holds a branch, jump, call, return or trap; and each such word
/// gives its statement in its place (`transfer_positioned`).
pub open spec fn lifted_block_ok(dis: Map<u16, Line>, start: u16, len: int, ss: Seq<SStmt>) -> bool {
    &&& forall|j: int| 0 <= j < ss.len() ==> words_between(start, 0, len).contains(#[trigger] ss[j].addr)
    &&& transfers_from(ss, dis)
    &&& forall|w: int| 0 <= w < len && #[trigger] transfer_word(dis, addr_plus(start, w)) ==> transfer_positioned(ss, start, len, w)
}

/// Each word of a block that holds a branch, jump, call, return or trap
/// gives one statement in the lifted block (see `propagate_expressions`),
/// which transfers control and has the word's address: the statements
/// before it come from earlier words of the block and those after it from
/// later words. Where the block does not wrap around the end of memory, it is
/// the only statement at its address that transfers control, the statements
/// before it have lower addresses, and those after it higher ones.
pub proof fn law_lift_transfer_position(dis: Map<u16, Line>, live: Map<u16, LivenessInfo>, start: u16, len: int, w: int)
    requires
        0 <= w < len,
        transfer_word(dis, addr_plus(start, w)),
    ensures
        transfer_positioned(lift_block(dis, live, start, len), start, len, w),
{
    let a = addr_plus(start, w);
    let ss = lift_block(dis, live, start, len);
    let (e, x) = lemma_transfer_parts(dis, live, start, len, w);
    lemma_position_core(e, x, ss, words_between(start, 0, w), words_between(start, w + 1, len));
    let t = e.len() as int;
    if start + len <= 0x10000 {
        lemma_words_order(start, len, w);
    }
    assert(0 <= t < ss.len() && ss[t].addr == a && transfer_stmt(ss[t]));
}

/// A lifted block keeps to its block (`lifted_block_ok`).
pub proof fn law_lifted_block_ok(dis: Map<u16, Line>, live: Map<u16, LivenessInfo>, start: u16, len: int)
    requires
        len >= 0,
    ensures
        lifted_block_ok(dis, start, len, lift_block(dis, live, start, len)),
{
    let ss = lift_block(dis, live, start, len);
    lemma_lift_from_in(dis, live, start, len, len);
    let (o, p) = lift_from(dis, live, start, len);
    lemma_emit_all_in(o, p, block_words(start, len));
    assert(block_words(start, len) =~= words_between(start, 0, len));
    lemma_lift_from_transfers(dis, live, start, len);
    lemma_emit_all_plain(o, p, dis);
    assert forall|w: int| 0 <= w < len && #[trigger] transfer_word(dis, addr_plus(start, w)) implies transfer_positioned(ss, start, len, w) by {
        law_lift_transfer_position(dis, live, start, len, w);
    }
}

/// The lifted block split at the statement of a word that transfers
/// control.
proof fn lemma_transfer_parts(dis: Map<u16, Line>, live: Map<u16, LivenessInfo>, start: u16, len: int, w: int) -> (r: (Seq<SStmt>, SStmt))
    requires
        0 <= w < len,
        transfer_word(dis, addr_plus(start, w)),
    ensures
        stmts_in(r.0, words_between(start, 0, w)),
        ext_in(r.0.push(r.1), lift_block(dis, live, start, len), words_between(start, w + 1, len)),
        r.1.addr == addr_plus(start, w),
        transfer_stmt(r.1),
{
    let (o0, p0) = lift_from(dis, live, start, w);
    lemma_transfer_at(dis, live, start, w);
    let o1 = lift_from(dis, live, start, w + 1).0;
    let e = emit_all(o0, p0);
    let x = o1.last();
    assert(o1 =~= e.push(x));
    lemma_lift_from_in(dis, live, start, w, w);
    lemma_emit_all_in(o0, p0, block_words(start, w));
    assert(block_words(start, w) =~= words_between(start, 0, w));
    lemma_lift_from_ext(dis, live, start, w + 1, len, len);
    let (on, pn) = lift_from(dis, live, start, len);
    let b = words_between(start, w + 1, len);
    lemma_emit_all_ext(on, pn, b);
    lemma_ext_trans(o1, on, lift_block(dis, live, start, len), b);
    (e, x)
}

/// Without wrap-around, the words before `w` have lower addresses and those
/// after it higher ones.
proof fn lemma_words_order(start: u16, len: int, w: int)
    requires
        0 <= w < len,
        start + len <= 0x10000,
    ensures
        addr_plus(start, w) == start + w,
        forall|y: u16| #[trigger] words_between(start, 0, w).contains(y) ==> y < addr_plus(start, w),
        forall|y: u16| #[trigger] words_between(start, w + 1, len).contains(y) ==> y > addr_plus(start, w),
{
    assert((start as int + w) % 0x10000 == start + w);
    assert forall|y: u16| #[trigger] words_between(start, 0, w).contains(y) implies y < addr_plus(start, w) by {
        let q = choose|q: int| 0 <= q < w && addr_plus(start, q) == y;
        assert((start as int + q) % 0x10000 == start + q);
    }
    assert forall|y: u16| #[trigger] words_between(start, w + 1, len).contains(y) implies y > addr_plus(start, w) by {
        let q = choose|q: int| w + 1 <= q < len && addr_plus(start, q) == y;
        assert((start as int + q) % 0x10000 == start + q);
    }
}

/// The address a statement stores to, if it is a store.
pub open spec fn store_address(s: SStmt) -> Option<SExpr> {
    match s.kind {
        SKind::Store(a, _) => Some(a),
        _ => None,
    }
}

/// The memory instructions lift to expressions that mean what the LC-3
/// instructions do, whatever the registers, parameters and memory hold
/// (with `t` = PC + 1 + offset): `ST` stores to `t` and `STI` to the address
/// held in memory at `t`, in a statement at the instruction's address; `LD`
/// loads from `t`, `LDI` from the address held at `t`, and `LEA` takes `t`
/// itself, each as the pending value of its destination register.
pub proof fn law_lift_memory_addresses(
    out: Seq<SStmt>,
    p: Pending,
    a: u16,
    info: LivenessInfo,
    s: u8,
    d: u8,
    off: i16,
    regs: spec_fn(u8) -> i16,
    params: spec_fn(u8) -> i16,
    mem: spec_fn(i16) -> i16,
)
    ensures
        ({
            let t = pc_target(a, off) as i16;
            let st = lift_instr(out, p, a, Instr::St(s, off), info).0;
            let sti = lift_instr(out, p, a, Instr::Sti(s, off), info).0;
            let ld = lift_instr(out, p, a, Instr::Ld(d, off), info).1;
            let ldi = lift_instr(out, p, a, Instr::Ldi(d, off), info).1;
            let lea = lift_instr(out, p, a, Instr::Lea(d, off), info).1;
            &&& st.len() > 0 && st.last().addr == a && store_address(st.last()) is Some
            &&& eval16(store_address(st.last())->0, regs, params, mem) == t
            &&& sti.len() > 0 && sti.last().addr == a && store_address(sti.last()) is Some
            &&& eval16(store_address(sti.last())->0, regs, params, mem) == mem(t)
            &&& ld.len() > 0 && ld.last().0 == d && ld.last().2 == a && eval16(ld.last().1, regs, params, mem) == mem(t)
            &&& ldi.len() > 0 && ldi.last().0 == d && ldi.last().2 == a && eval16(ldi.last().1, regs, params, mem) == mem(mem(t))
            &&& lea.len() > 0 && lea.last().0 == d && lea.last().2 == a && eval16(lea.last().1, regs, params, mem) == t
        }),
{
    let t = pc_target(a, off) as i16;
    let ie = imm_addr(pc_target(a, off));
    assert(eval16(ie, regs, params, mem) == t);
    assert(eval16(SExpr::Load(Box::new(ie)), regs, params, mem) == mem(t));
    assert(eval16(SExpr::Load(Box::new(SExpr::Load(Box::new(ie)))), regs, params, mem) == mem(mem(t)));
}

/// Whether each pending assignment's expression evaluates to the value of
/// its register: the pending list describes the register file.
pub open spec fn pend_means(p: Pending, regs: spec_fn(u8) -> i16, params: spec_fn(u8) -> i16, mem: spec_fn(i16) -> i16) -> bool {
    forall|k: int| 0 <= k < p.len() ==> eval16(#[trigger] p[k].1, regs, params, mem) == regs(p[k].0)
}

/// The value of the second operand of `ADD` or `AND` in the register file.
pub open spec fn operand_value(o: Operand, regs: spec_fn(u8) -> i16) -> i16 {
    match o {
        Operand::Reg(r) => regs(r),
        Operand::Imm(v) => v,
    }
}

/// The value a statement stores, if it is a store.
pub open spec fn stored_value(s: SStmt) -> Option<SExpr> {
    match s.kind {
        SKind::Store(_, v) => Some(v),
        _ => None,
    }
}

proof fn lemma_pfind_hit(p: Pending, r: u8, i: int)
    requires
        0 <= i,
    ensures
        pfind(p, r, i) >= 0 ==> p[pfind(p, r, i)].0 == r,
    decreases p.len() - i,
{
    if i < p.len() && p[i].0 != r {
        lemma_pfind_hit(p, r, i + 1);
    }
}

proof fn lemma_means_sub(p: Pending, q: Pending, regs: spec_fn(u8) -> i16, params: spec_fn(u8) -> i16, mem: spec_fn(i16) -> i16)
    requires
        pend_means(p, regs, params, mem),
        forall|k: int| 0 <= k < q.len() ==> p.contains(#[trigger] q[k]),
    ensures
        pend_means(q, regs, params, mem),
{
    assert forall|k: int| 0 <= k < q.len() implies eval16(#[trigger] q[k].1, regs, params, mem) == regs(q[k].0) by {
        assert(p.contains(q[k]));
        let j = choose|j: int| 0 <= j < p.len() && p[j] == q[k];
        assert(eval16(p[j].1, regs, params, mem) == regs(p[j].0));
    }
}

proof fn lemma_take_means(p: Pending, r: u8, regs: spec_fn(u8) -> i16, params: spec_fn(u8) -> i16, mem: spec_fn(i16) -> i16)
    requires
        pend_means(p, regs, params, mem),
    ensures
        pend_means(take(p, r).1, regs, params, mem),
        take(p, r).0 matches Some((e, _)) ==> eval16(e, regs, params, mem) == regs(r),
{
    lemma_pfind_in(p, r, 0);
    lemma_pfind_hit(p, r, 0);
    let k = pfind(p, r, 0);
    if k >= 0 {
        p.remove_ensures(k);
        assert forall|j: int| 0 <= j < p.remove(k).len() implies p.contains(#[trigger] p.remove(k)[j]) by {
            if j < k {
                assert(p[j] == p.remove(k)[j]);
            } else {
                assert(p[j + 1] == p.remove(k)[j]);
            }
        }
        lemma_means_sub(p, p.remove(k), regs, params, mem);
        assert(eval16(p[k].1, regs, params, mem) == regs(p[k].0));
    }
}

proof fn lemma_flush_split_contains(p: Pending, x: u16)
    ensures
        forall|k: int| 0 <= k < flush_split(p, x).1.len() ==> p.contains(#[trigger] flush_split(p, x).1[k]),
    decreases p.len(),
{
    if p.len() > 0 {
        let d = p.drop_last();
        lemma_flush_split_contains(d, x);
        let kk = flush_split(d, x).1;
        assert forall|k: int| 0 <= k < flush_split(p, x).1.len() implies p.contains(#[trigger] flush_split(p, x).1[k]) by {
            if k < kk.len() {
                assert(flush_split(p, x).1[k] == kk[k]);
                assert(d.contains(kk[k]));
                let j = choose|j: int| 0 <= j < d.len() && d[j] == kk[k];
                assert(p[j] == kk[k]);
            } else {
                assert(flush_split(p, x).1[k] == p.last());
                assert(p[p.len() - 1] == p.last());
            }
        }
    }
}

proof fn lemma_use_reg_means(out: Seq<SStmt>, p: Pending, r: u8, info: LivenessInfo, regs: spec_fn(u8) -> i16, params: spec_fn(u8) -> i16, mem: spec_fn(i16) -> i16)
    requires
        pend_means(p, regs, params, mem),
    ensures
        eval16(use_reg(out, p, r, info).0, regs, params, mem) == regs(r),
        pend_means(use_reg(out, p, r, info).2, regs, params, mem),
        eval16(use_reg_emit(out, p, r).0, regs, params, mem) == regs(r),
        pend_means(use_reg_emit(out, p, r).2, regs, params, mem),
{
    lemma_take_means(p, r, regs, params, mem);
    let (t, p1) = take(p, r);
    if let Some((e, x)) = t {
        lemma_flush_split_contains(p1, x);
        lemma_means_sub(p1, flush_split(p1, x).1, regs, params, mem);
    }
}

proof fn lemma_binary_means(out: Seq<SStmt>, p: Pending, s1: u8, o: Operand, info: LivenessInfo, regs: spec_fn(u8) -> i16, params: spec_fn(u8) -> i16, mem: spec_fn(i16) -> i16)
    requires
        pend_means(p, regs, params, mem),
    ensures
        eval16(binary_operands(out, p, s1, o, info).0, regs, params, mem) == regs(s1),
        eval16(binary_operands(out, p, s1, o, info).1, regs, params, mem) == operand_value(o, regs),
{
    lemma_use_reg_means(out, p, s1, info, regs, params, mem);
    let multi = o matches Operand::Reg(r2) && r2 == s1;
    let (op1, o1, p1) = if multi {
        use_reg_emit(out, p, s1)
    } else {
        use_reg(out, p, s1, info)
    };
    if let Operand::Reg(r2) = o {
        lemma_use_reg_means(o1, p1, r2, info, regs, params, mem);
    }
}

/// Lifting an instruction computes what the LC-3 instruction does, for any
/// register file that the pending assignments describe (each evaluates to
/// its register's value) and any memory: `ADD`, `AND` and `NOT` leave as the
/// pending value of the destination the 16-bit sum, bitwise and, or bitwise
/// complement of their operands' values; `LDR` loads from base + offset;
/// `ST`, `STI` and `STR` store the source register's value to PC + 1 +
/// offset, to the address held there, or to base + offset. Control transfers
/// end with the statement of their kind: a `BR` is a goto to PC + 1 +
/// offset on its condition code, a `JSR` a call of PC + 1 + offset, a `JSRR`
/// a call through its register, `RET` a return and a numbered trap that trap;
/// nothing stays pending after them.
pub proof fn law_lift_computes(
    out: Seq<SStmt>,
    p: Pending,
    a: u16,
    ins: Instr,
    info: LivenessInfo,
    regs: spec_fn(u8) -> i16,
    params: spec_fn(u8) -> i16,
    mem: spec_fn(i16) -> i16,
)
    requires
        pend_means(p, regs, params, mem),
    ensures
        ({
            let (o2, p2) = lift_instr(out, p, a, ins, info);
            match ins {
                Instr::Add(d, s, o) => p2.len() > 0 && p2.last().0 == d && p2.last().2 == a
                    && eval16(p2.last().1, regs, params, mem) == vstd::wrapping::i16_specs::wrapping_add(regs(s), operand_value(o, regs)),
                Instr::And(d, s, o) => p2.len() > 0 && p2.last().0 == d && p2.last().2 == a
                    && eval16(p2.last().1, regs, params, mem) == regs(s) & operand_value(o, regs),
                Instr::Not(d, s) => p2.len() > 0 && p2.last().0 == d && p2.last().2 == a
                    && eval16(p2.last().1, regs, params, mem) == !regs(s),
                Instr::Ldr(d, b, off) => p2.len() > 0 && p2.last().0 == d && p2.last().2 == a
                    && eval16(p2.last().1, regs, params, mem) == mem(vstd::wrapping::i16_specs::wrapping_add(regs(b), off)),
                Instr::St(s, off) => o2.len() > 0 && o2.last().addr == a && store_address(o2.last()) is Some
                    && stored_value(o2.last()) is Some
                    && eval16(store_address(o2.last())->0, regs, params, mem) == pc_target(a, off) as i16
                    && eval16(stored_value(o2.last())->0, regs, params, mem) == regs(s),
                Instr::Sti(s, off) => o2.len() > 0 && o2.last().addr == a && store_address(o2.last()) is Some
                    && stored_value(o2.last()) is Some
                    && eval16(store_address(o2.last())->0, regs, params, mem) == mem(pc_target(a, off) as i16)
                    && eval16(stored_value(o2.last())->0, regs, params, mem) == regs(s),
                Instr::Str(s, b, off) => o2.len() > 0 && o2.last().addr == a && store_address(o2.last()) is Some
                    && stored_value(o2.last()) is Some
                    && eval16(store_address(o2.last())->0, regs, params, mem) == vstd::wrapping::i16_specs::wrapping_add(regs(b), off)
                    && eval16(stored_value(o2.last())->0, regs, params, mem) == regs(s),
                Instr::Br(cc, off) => o2.len() > 0 && p2.len() == 0
                    && o2.last() == (SStmt { addr: a, kind: SKind::Goto(None, cc, pc_target(a, off)) }),
                Instr::Jsr(off) => o2.len() > 0 && p2.len() == 0
                    && o2.last() == (SStmt { addr: a, kind: SKind::Call(SExpr::Immediate(pc_target(a, off) as i16), Seq::empty()) }),
                Instr::Jsrr(b) => o2.len() > 0 && p2.len() == 0
                    && o2.last() == (SStmt { addr: a, kind: SKind::Call(SExpr::Register(b), Seq::empty()) }),
                Instr::Ret => o2.len() > 0 && p2.len() == 0 && o2.last() == (SStmt { addr: a, kind: SKind::Return(None) }),
                Instr::Trap(v) => o2.len() > 0 && p2.len() == 0 && o2.last() == (SStmt { addr: a, kind: SKind::Trap(v) }),
                _ => true,
            }
        }),
{
    match ins {
        Instr::Add(d, s, o) => lemma_binary_means(out, p, s, o, info, regs, params, mem),
        Instr::And(d, s, o) => lemma_binary_means(out, p, s, o, info, regs, params, mem),
        Instr::Not(d, s) => lemma_use_reg_means(out, p, s, info, regs, params, mem),
        Instr::Ldr(d, b, off) => {
            lemma_use_reg_means(out, p, b, info, regs, params, mem);
            let bo = use_reg(out, p, b, info).0;
            let ad = SExpr::Add(Box::new(bo), Box::new(SExpr::Immediate(off)));
            assert(eval16(bo, regs, params, mem) == regs(b));
            assert(eval16(SExpr::Immediate(off), regs, params, mem) == off);
            assert(eval16(ad, regs, params, mem) == vstd::wrapping::i16_specs::wrapping_add(regs(b), off));
            assert(eval16(SExpr::Load(Box::new(ad)), regs, params, mem) == mem(vstd::wrapping::i16_specs::wrapping_add(regs(b), off)));
        },
        Instr::St(s, off) => {
            lemma_use_reg_means(out, p, s, info, regs, params, mem);
            assert(eval16(imm_addr(pc_target(a, off)), regs, params, mem) == pc_target(a, off) as i16);
        },
        Instr::Sti(s, off) => {
            lemma_use_reg_means(out, p, s, info, regs, params, mem);
            let ie = imm_addr(pc_target(a, off));
            assert(eval16(ie, regs, params, mem) == pc_target(a, off) as i16);
            assert(eval16(SExpr::Load(Box::new(ie)), regs, params, mem) == mem(pc_target(a, off) as i16));
        },
        Instr::Str(s, b, off) => {
            lemma_use_reg_means(out, p, s, info, regs, params, mem);
            let (so, o1, p1) = use_reg(out, p, s, info);
            lemma_use_reg_means(o1, p1, b, info, regs, params, mem);
            let bo = use_reg(o1, p1, b, info).0;
            assert(eval16(bo, regs, params, mem) == regs(b));
            assert(eval16(SExpr::Immediate(off), regs, params, mem) == off);
            let ad = SExpr::Add(Box::new(bo), Box::new(SExpr::Immediate(off)));
            assert(eval16(ad, regs, params, mem) == vstd::wrapping::i16_specs::wrapping_add(regs(b), off));
        },
        _ => {},
    }
}

} // verus!
