use vstd::prelude::*;
use crate::addr_map::AddrMap;
use crate::addr_set::AddrSet;
use crate::ir::{
    Expr, IRStmt, IRStmtKind, SExpr, SKind, SStmt, blocks_view, expr_view, exprs_view, opt_view, stmt_view,
    stmts_view, lemma_blocks_view, lemma_stmts_view, duplicate_exprs, duplicate_opt,
};

verus! {

/// A statement of the linear code: the intermediate representation with
/// loop bodies as statement lists and labels for goto targets.
#[derive(Debug)]
pub enum LinearStmt {
    Assign(u8, Expr),
    Store(Expr, Expr),
    Goto(Option<Expr>, u8, u16),
    Call(Expr, Vec<Expr>),
    Return(Option<Expr>),
    Trap(u8),
    IndirectGoto(Expr),
    DoWhile(Option<Expr>, u8, Vec<LinearStmt>),
    While(Option<Expr>, u8, Vec<LinearStmt>),
    For(Box<LinearStmt>, Option<Expr>, u8, Box<LinearStmt>, Vec<LinearStmt>),
    If(Option<Expr>, u8, Vec<LinearStmt>, Option<Vec<LinearStmt>>),
    Break,
    Continue,
    Label(u16),
}

/// The mathematical model of a linear statement.
pub enum SLin {
    Assign(u8, SExpr),
    Store(SExpr, SExpr),
    Goto(Option<SExpr>, u8, u16),
    Call(SExpr, Seq<SExpr>),
    Return(Option<SExpr>),
    Trap(u8),
    IndirectGoto(SExpr),
    DoWhile(Option<SExpr>, u8, Seq<SLin>),
    While(Option<SExpr>, u8, Seq<SLin>),
    For(Box<SLin>, Option<SExpr>, u8, Box<SLin>, Seq<SLin>),
    If(Option<SExpr>, u8, Seq<SLin>, Option<Seq<SLin>>),
    Break,
    Continue,
    Label(u16),
}

impl View for LinearStmt {
    type V = SLin;

    open spec fn view(&self) -> SLin {
        lin_view(*self)
    }
}

/// The model of a linear statement.
pub open spec fn lin_view(l: LinearStmt) -> SLin
    decreases l,
{
    match l {
        LinearStmt::Assign(r, e) => SLin::Assign(r, expr_view(e)),
        LinearStmt::Store(a, v) => SLin::Store(expr_view(a), expr_view(v)),
        LinearStmt::Goto(e, cc, t) => SLin::Goto(opt_view(e), cc, t),
        LinearStmt::Call(t, args) => SLin::Call(expr_view(t), exprs_view(args@)),
        LinearStmt::Return(e) => SLin::Return(opt_view(e)),
        LinearStmt::Trap(v) => SLin::Trap(v),
        LinearStmt::IndirectGoto(e) => SLin::IndirectGoto(expr_view(e)),
        LinearStmt::DoWhile(c, cc, b) => SLin::DoWhile(opt_view(c), cc, lins_view(b@)),
        LinearStmt::While(c, cc, b) => SLin::While(opt_view(c), cc, lins_view(b@)),
        LinearStmt::For(i, c, cc, n, b) => SLin::For(
            Box::new(lin_view(*i)),
            opt_view(c),
            cc,
            Box::new(lin_view(*n)),
            lins_view(b@),
        ),
        LinearStmt::If(c, cc, t, f) => SLin::If(
            opt_view(c),
            cc,
            lins_view(t@),
            match f {
                Some(fs) => Some(lins_view(fs@)),
                None => None,
            },
        ),
        LinearStmt::Break => SLin::Break,
        LinearStmt::Continue => SLin::Continue,
        LinearStmt::Label(a) => SLin::Label(a),
    }
}

/// The models of a sequence of linear statements.
pub open spec fn lins_view(s: Seq<LinearStmt>) -> Seq<SLin>
    decreases s,
{
    if s.len() == 0 {
        Seq::empty()
    } else {
        lins_view(s.drop_last()).push(lin_view(s.last()))
    }
}

pub proof fn lemma_lins_view(s: Seq<LinearStmt>)
    ensures
        lins_view(s).len() == s.len(),
        forall|i: int| 0 <= i < s.len() ==> #[trigger] lins_view(s)[i] == lin_view(s[i]),
    decreases s.len(),
{
    if s.len() > 0 {
        lemma_lins_view(s.drop_last());
        assert forall|i: int| 0 <= i < s.len() implies #[trigger] lins_view(s)[i] == lin_view(s[i]) by {
            if i < s.len() - 1 {
                assert(s.drop_last()[i] == s[i]);
            }
        }
    }
}

/// Appends a linear statement to a vector.
pub fn push_lin(out: &mut Vec<LinearStmt>, l: LinearStmt)
    ensures
        lins_view(final(out)@) == lins_view(old(out)@).push(lin_view(l)),
{
    let ghost prev = out@;
    out.push(l);
    proof {
        assert(out@.drop_last() =~= prev);
        assert(out@.last() == l);
    }
}

impl LinearStmt {
    /// A copy of the statement.
    pub fn duplicate(&self) -> (r: LinearStmt)
        ensures
            r@ == self@,
        decreases self,
    {
        match self {
            LinearStmt::Assign(r, e) => LinearStmt::Assign(*r, e.duplicate()),
            LinearStmt::Store(a, v) => LinearStmt::Store(a.duplicate(), v.duplicate()),
            LinearStmt::Goto(e, cc, t) => LinearStmt::Goto(duplicate_opt(e), *cc, *t),
            LinearStmt::Call(t, args) => LinearStmt::Call(t.duplicate(), duplicate_exprs(args)),
            LinearStmt::Return(e) => LinearStmt::Return(duplicate_opt(e)),
            LinearStmt::Trap(v) => LinearStmt::Trap(*v),
            LinearStmt::IndirectGoto(e) => LinearStmt::IndirectGoto(e.duplicate()),
            LinearStmt::DoWhile(c, cc, b) => LinearStmt::DoWhile(duplicate_opt(c), *cc, duplicate_lins(b)),
            LinearStmt::While(c, cc, b) => LinearStmt::While(duplicate_opt(c), *cc, duplicate_lins(b)),
            LinearStmt::For(i, c, cc, n, b) => LinearStmt::For(
                Box::new(i.duplicate()),
                duplicate_opt(c),
                *cc,
                Box::new(n.duplicate()),
                duplicate_lins(b),
            ),
            LinearStmt::If(c, cc, t, f) => LinearStmt::If(
                duplicate_opt(c),
                *cc,
                duplicate_lins(t),
                match f {
                    Some(fs) => Some(duplicate_lins(fs)),
                    None => None,
                },
            ),
            LinearStmt::Break => LinearStmt::Break,
            LinearStmt::Continue => LinearStmt::Continue,
            LinearStmt::Label(a) => LinearStmt::Label(*a),
        }
    }
}

/// A copy of a vector of linear statements.
pub fn duplicate_lins(v: &Vec<LinearStmt>) -> (r: Vec<LinearStmt>)
    ensures
        lins_view(r@) == lins_view(v@),
    decreases v,
{
    let r = duplicate_lin_range(v, 0, v.len());
    proof {
        lemma_lins_view(v@);
        assert(lins_view(v@).subrange(0, v@.len() as int) =~= lins_view(v@));
    }
    r
}

/// A copy of the statements `v[a..b]`.
pub fn duplicate_lin_range(v: &Vec<LinearStmt>, a: usize, b: usize) -> (r: Vec<LinearStmt>)
    requires
        a <= b <= v@.len(),
    ensures
        lins_view(r@) == lins_view(v@).subrange(a as int, b as int),
    decreases v, 0int,
{
    proof {
        lemma_lins_view(v@);
    }
    let mut r: Vec<LinearStmt> = Vec::new();
    let mut i: usize = a;
    while i < b
        invariant
            a <= i <= b,
            b <= v@.len(),
            lins_view(v@).len() == v@.len(),
            forall|q: int| 0 <= q < v@.len() ==> #[trigger] lins_view(v@)[q] == lin_view(v@[q]),
            lins_view(r@) == lins_view(v@).subrange(a as int, i as int),
        decreases b - i,
    {
        proof {
            assert(decreases_to!(v => v[i as int]));
        }
        let l = v[i].duplicate();
        push_lin(&mut r, l);
        proof {
            assert(lins_view(v@).subrange(a as int, i + 1) =~= lins_view(v@).subrange(a as int, i as int).push(lin_view(v@[i as int])));
        }
        i = i + 1;
    }
    r
}

/// The targets of the gotos in a statement, nested statements included
/// (but not the initialisation and increment of `For` loops).
pub open spec fn targets_s(s: SStmt) -> Set<u16>
    decreases s,
{
    match s.kind {
        SKind::Goto(_, _, t) => set![t],
        SKind::DoWhile(_, _, b) => targets_b(b),
        SKind::While(_, _, b) => targets_b(b),
        SKind::For(_, _, _, _, b) => targets_b(b),
        SKind::If(_, _, t, f) => targets_ss(t) + match f {
            Some(fs) => targets_ss(fs),
            None => Set::empty(),
        },
        _ => Set::empty(),
    }
}

/// `targets_s` of every statement.
pub open spec fn targets_ss(ss: Seq<SStmt>) -> Set<u16>
    decreases ss,
{
    if ss.len() == 0 {
        Set::empty()
    } else {
        targets_ss(ss.drop_last()) + targets_s(ss.last())
    }
}

/// `targets_ss` of every block.
pub open spec fn targets_b(b: Seq<(u16, Seq<SStmt>)>) -> Set<u16>
    decreases b,
{
    if b.len() == 0 {
        Set::empty()
    } else {
        targets_b(b.drop_last()) + targets_ss(b.last().1)
    }
}

/// Adds the goto targets of a statement vector to `targets`.
fn collect_goto_targets(stmts: &Vec<IRStmt>, targets: &mut AddrSet)
    requires
        old(targets).wf(),
    ensures
        final(targets).wf(),
        final(targets).set() == old(targets).set() + targets_ss(stmts_view(stmts@)),
    decreases stmts, 0int,
{
    let ghost t0 = targets.set();
    let mut i: usize = 0;
    while i < stmts.len()
        invariant
            i <= stmts@.len(),
            targets.wf(),
            targets.set() == t0 + targets_ss(stmts_view(stmts@.subrange(0, i as int))),
        decreases stmts@.len() - i,
    {
        proof {
            assert(decreases_to!(stmts => stmts[i as int]));
            let x = stmts@.subrange(0, i + 1);
            assert(x.drop_last() =~= stmts@.subrange(0, i as int));
            assert(stmts_view(x).drop_last() == stmts_view(x.drop_last()));
        }
        let ghost before = targets.set();
        collect_stmt_targets(&stmts[i], targets);
        proof {
            let x = stmts@.subrange(0, i + 1);
            assert(targets.set() =~= t0 + targets_ss(stmts_view(x)));
        }
        i = i + 1;
    }
    proof {
        assert(stmts@.subrange(0, i as int) =~= stmts@);
    }
}

/// Adds the goto targets of one statement to `targets`.
fn collect_stmt_targets(stmt: &IRStmt, targets: &mut AddrSet)
    requires
        old(targets).wf(),
    ensures
        final(targets).wf(),
        final(targets).set() == old(targets).set() + targets_s(stmt@),
    decreases stmt, 1int,
{
    let ghost t0 = targets.set();
    match &stmt.kind {
        IRStmtKind::Goto(_, _, t) => {
            targets.insert(*t);
            proof {
                assert(targets.set() =~= t0 + set![*t]);
            }
        },
        IRStmtKind::DoWhile(_, _, body) => collect_block_targets(body, targets),
        IRStmtKind::While(_, _, body) => collect_block_targets(body, targets),
        IRStmtKind::For(_, _, _, _, body) => collect_block_targets(body, targets),
        IRStmtKind::If(_, _, t, f) => {
            collect_goto_targets(t, targets);
            match f {
                Some(fs) => {
                    collect_goto_targets(fs, targets);
                    proof {
                        assert(targets.set() =~= t0 + targets_s(stmt@));
                    }
                },
                None => {
                    proof {
                        assert(targets.set() =~= t0 + targets_s(stmt@));
                    }
                },
            }
        },
        _ => {
            proof {
                assert(targets.set() =~= t0 + targets_s(stmt@));
            }
        },
    }
}

/// Adds the goto targets of the blocks of a loop body to `targets`.
fn collect_block_targets(m: &AddrMap<Vec<IRStmt>>, targets: &mut AddrSet)
    requires
        old(targets).wf(),
    ensures
        final(targets).wf(),
        final(targets).set() == old(targets).set() + targets_b(blocks_view(m.entries@)),
    decreases m, 0int,
{
    let ghost t0 = targets.set();
    let mut i: usize = 0;
    while i < m.entries.len()
        invariant
            i <= m.entries@.len(),
            targets.wf(),
            targets.set() == t0 + targets_b(blocks_view(m.entries@.subrange(0, i as int))),
        decreases m.entries@.len() - i,
    {
        proof {
            assert(decreases_to!(m => m.entries));
            assert(decreases_to!(m.entries => m.entries[i as int]));
            assert(decreases_to!(m.entries[i as int] => m.entries[i as int].1));
            let x = m.entries@.subrange(0, i + 1);
            assert(x.drop_last() =~= m.entries@.subrange(0, i as int));
            assert(blocks_view(x).drop_last() == blocks_view(x.drop_last()));
        }
        collect_goto_targets(&m.entries[i].1, targets);
        proof {
            let x = m.entries@.subrange(0, i + 1);
            assert(targets.set() =~= t0 + targets_b(blocks_view(x)));
        }
        i = i + 1;
    }
    proof {
        assert(m.entries@.subrange(0, i as int) =~= m.entries@);
    }
}

/// A statement of the intermediate representation as a linear statement,
/// loop bodies linearised with labels at the addresses in `t`.
pub open spec fn to_lin(s: SStmt, t: Set<u16>) -> SLin
    decreases s,
{
    match s.kind {
        SKind::Assign(r, e) => SLin::Assign(r, e),
        SKind::Store(a, v) => SLin::Store(a, v),
        SKind::Goto(e, cc, tg) => SLin::Goto(e, cc, tg),
        SKind::Call(tg, args) => SLin::Call(tg, args),
        SKind::Return(e) => SLin::Return(e),
        SKind::Trap(v) => SLin::Trap(v),
        SKind::DoWhile(c, cc, b) => SLin::DoWhile(c, cc, lin_blocks(b, t)),
        SKind::While(c, cc, b) => SLin::While(c, cc, lin_blocks(b, t)),
        SKind::For(i, c, cc, n, b) => SLin::For(Box::new(to_lin(*i, t)), c, cc, Box::new(to_lin(*n, t)), lin_blocks(b, t)),
        SKind::If(c, cc, tb, fb) => SLin::If(
            c,
            cc,
            lin_stmts(tb, t),
            match fb {
                Some(fs) => Some(lin_stmts(fs, t)),
                None => None,
            },
        ),
        SKind::Break => SLin::Break,
        SKind::Continue => SLin::Continue,
    }
}

/// `to_lin` of every statement.
pub open spec fn lin_stmts(ss: Seq<SStmt>, t: Set<u16>) -> Seq<SLin>
    decreases ss,
{
    if ss.len() == 0 {
        Seq::empty()
    } else {
        lin_stmts(ss.drop_last(), t).push(to_lin(ss.last(), t))
    }
}

/// The blocks in order, each preceded by a label where its address is in
/// `t`.
pub open spec fn lin_blocks(b: Seq<(u16, Seq<SStmt>)>, t: Set<u16>) -> Seq<SLin>
    decreases b,
{
    if b.len() == 0 {
        Seq::empty()
    } else {
        lin_blocks(b.drop_last(), t) + (if t.contains(b.last().0) {
            seq![SLin::Label(b.last().0)]
        } else {
            Seq::empty()
        }) + lin_stmts(b.last().1, t)
    }
}

/// Builds `to_lin` of a statement.
fn to_linear_stmt(stmt: &IRStmt, targets: &AddrSet) -> (r: LinearStmt)
    requires
        targets.wf(),
    ensures
        r@ == to_lin(stmt@, targets.set()),
    decreases stmt, 1int,
{
    match &stmt.kind {
        IRStmtKind::Assign(r, e) => LinearStmt::Assign(*r, e.duplicate()),
        IRStmtKind::Store(a, v) => LinearStmt::Store(a.duplicate(), v.duplicate()),
        IRStmtKind::Goto(e, cc, t) => LinearStmt::Goto(duplicate_opt(e), *cc, *t),
        IRStmtKind::Call(t, args) => LinearStmt::Call(t.duplicate(), duplicate_exprs(args)),
        IRStmtKind::Return(e) => LinearStmt::Return(duplicate_opt(e)),
        IRStmtKind::Trap(v) => LinearStmt::Trap(*v),
        IRStmtKind::DoWhile(c, cc, b) => LinearStmt::DoWhile(duplicate_opt(c), *cc, linearize_blocks(b, targets)),
        IRStmtKind::While(c, cc, b) => LinearStmt::While(duplicate_opt(c), *cc, linearize_blocks(b, targets)),
        IRStmtKind::For(i, c, cc, n, b) => LinearStmt::For(
            Box::new(to_linear_stmt(i, targets)),
            duplicate_opt(c),
            *cc,
            Box::new(to_linear_stmt(n, targets)),
            linearize_blocks(b, targets),
        ),
        IRStmtKind::If(c, cc, t, f) => LinearStmt::If(
            duplicate_opt(c),
            *cc,
            linear_stmts(t, targets),
            match f {
                Some(fs) => Some(linear_stmts(fs, targets)),
                None => None,
            },
        ),
        IRStmtKind::Break => LinearStmt::Break,
        IRStmtKind::Continue => LinearStmt::Continue,
    }
}

/// Builds `lin_stmts`.
fn linear_stmts(v: &Vec<IRStmt>, targets: &AddrSet) -> (r: Vec<LinearStmt>)
    requires
        targets.wf(),
    ensures
        lins_view(r@) == lin_stmts(stmts_view(v@), targets.set()),
    decreases v, 0int,
{
    let mut out: Vec<LinearStmt> = Vec::new();
    let mut i: usize = 0;
    while i < v.len()
        invariant
            i <= v@.len(),
            targets.wf(),
            lins_view(out@) == lin_stmts(stmts_view(v@.subrange(0, i as int)), targets.set()),
        decreases v@.len() - i,
    {
        proof {
            assert(decreases_to!(v => v[i as int]));
            let x = v@.subrange(0, i + 1);
            assert(x.drop_last() =~= v@.subrange(0, i as int));
            assert(stmts_view(x).drop_last() == stmts_view(x.drop_last()));
        }
        let l = to_linear_stmt(&v[i], targets);
        push_lin(&mut out, l);
        i = i + 1;
    }
    proof {
        assert(v@.subrange(0, i as int) =~= v@);
    }
    out
}

/// Lists the blocks in order, each preceded by a label where a goto
/// targets it (see `lin_blocks`).
pub fn linearize_blocks(blocks: &AddrMap<Vec<IRStmt>>, targets: &AddrSet) -> (r: Vec<LinearStmt>)
    requires
        targets.wf(),
    ensures
        lins_view(r@) == lin_blocks(blocks_view(blocks.entries@), targets.set()),
    decreases blocks, 0int,
{
    let mut out: Vec<LinearStmt> = Vec::new();
    let mut i: usize = 0;
    while i < blocks.entries.len()
        invariant
            i <= blocks.entries@.len(),
            targets.wf(),
            lins_view(out@) == lin_blocks(blocks_view(blocks.entries@.subrange(0, i as int)), targets.set()),
        decreases blocks.entries@.len() - i,
    {
        proof {
            assert(decreases_to!(blocks => blocks.entries));
            assert(decreases_to!(blocks.entries => blocks.entries[i as int]));
            assert(decreases_to!(blocks.entries[i as int] => blocks.entries[i as int].1));
            let x = blocks.entries@.subrange(0, i + 1);
            assert(x.drop_last() =~= blocks.entries@.subrange(0, i as int));
            assert(blocks_view(x).drop_last() == blocks_view(x.drop_last()));
        }
        let key = blocks.entries[i].0;
        let ghost o0 = lins_view(out@);
        if targets.contains(key) {
            push_lin(&mut out, LinearStmt::Label(key));
        }
        let ghost o1 = lins_view(out@);
        let body = linear_stmts(&blocks.entries[i].1, targets);
        let ghost bv = lins_view(body@);
        let mut j: usize = 0;
        proof {
            lemma_lins_view(body@);
        }
        while j < body.len()
            invariant
                j <= body@.len(),
                bv == lins_view(body@),
                bv.len() == body@.len(),
                forall|q: int| 0 <= q < body@.len() ==> #[trigger] bv[q] == lin_view(body@[q]),
                lins_view(out@) == o1 + bv.subrange(0, j as int),
            decreases body@.len() - j,
        {
            let l = body[j].duplicate();
            push_lin(&mut out, l);
            proof {
                assert(o1 + bv.subrange(0, j + 1) =~= (o1 + bv.subrange(0, j as int)).push(bv[j as int]));
            }
            j = j + 1;
        }
        proof {
            assert(bv.subrange(0, j as int) =~= bv);
            let x = blocks.entries@.subrange(0, i + 1);
            assert(o1 == o0 + (if targets.set().contains(key) { seq![SLin::Label(key)] } else { Seq::<SLin>::empty() })) by {
                if targets.set().contains(key) {
                    assert(o1 =~= o0 + seq![SLin::Label(key)]);
                } else {
                    assert(o1 =~= o0 + Seq::<SLin>::empty());
                }
            }
        }
        i = i + 1;
    }
    proof {
        assert(blocks.entries@.subrange(0, i as int) =~= blocks.entries@);
    }
    out
}

/// Lists the blocks of a function in order, with labels where its gotos
/// jump.
pub fn linearize(blocks: &AddrMap<Vec<IRStmt>>) -> (r: Vec<LinearStmt>)
    ensures
        lins_view(r@) == lin_blocks(blocks_view(blocks.entries@), targets_b(blocks_view(blocks.entries@))),
{
    let mut targets = AddrSet::new();
    collect_block_targets(blocks, &mut targets);
    proof {
        assert(targets.set() =~= targets_b(blocks_view(blocks.entries@)));
    }
    linearize_blocks(blocks, &targets)
}

/// The condition code that holds exactly where `cc` does not.
pub open spec fn negated_cc(cc: u8) -> u8 {
    (!cc) & 7u8
}

/// Computes `negated_cc`.
pub fn negate_cc(cc: u8) -> (r: u8)
    ensures
        r == negated_cc(cc),
{
    (!cc) & 7
}

/// The negation of a compound condition by De Morgan's laws: `||` becomes
/// `&&` of the negated parts and the other way round; other expressions are
/// left as they are.
pub open spec fn neg_logical(e: SExpr) -> SExpr {
    match e {
        SExpr::LogicalOr(a, c1, b, c2) => SExpr::LogicalAnd(a, negated_cc(c1), b, negated_cc(c2)),
        SExpr::LogicalAnd(a, c1, b, c2) => SExpr::LogicalOr(a, negated_cc(c1), b, negated_cc(c2)),
        _ => e,
    }
}

/// Computes `neg_logical`.
pub fn negate_logical_expr(expr: &Expr) -> (r: Expr)
    ensures
        r@ == neg_logical(expr@),
{
    match expr {
        Expr::LogicalOr(lhs, lhs_cc, rhs, rhs_cc) => Expr::LogicalAnd(
            Box::new(lhs.duplicate()),
            negate_cc(*lhs_cc),
            Box::new(rhs.duplicate()),
            negate_cc(*rhs_cc),
        ),
        Expr::LogicalAnd(lhs, lhs_cc, rhs, rhs_cc) => Expr::LogicalOr(
            Box::new(lhs.duplicate()),
            negate_cc(*lhs_cc),
            Box::new(rhs.duplicate()),
            negate_cc(*rhs_cc),
        ),
        _ => expr.duplicate(),
    }
}

/// How deeply linear statements nest in a statement.
pub open spec fn lheight(l: SLin) -> nat
    decreases l,
{
    match l {
        SLin::DoWhile(_, _, b) => 1 + lsh(b),
        SLin::While(_, _, b) => 1 + lsh(b),
        SLin::For(_, _, _, _, b) => 1 + lsh(b),
        SLin::If(_, _, t, f) => 1 + match f {
            Some(fs) => if lsh(t) >= lsh(fs) { lsh(t) } else { lsh(fs) },
            None => lsh(t),
        },
        _ => 0,
    }
}

/// The largest `lheight` of a sequence.
pub open spec fn lsh(ss: Seq<SLin>) -> nat
    decreases ss,
{
    if ss.len() == 0 {
        0
    } else {
        let a = lsh(ss.drop_last());
        let b = lheight(ss.last());
        if a >= b {
            a
        } else {
            b
        }
    }
}

pub proof fn lemma_lsh(ss: Seq<SLin>, d: nat)
    ensures
        lsh(ss) <= d <==> forall|j: int| 0 <= j < ss.len() ==> #[trigger] lheight(ss[j]) <= d,
    decreases ss.len(),
{
    if ss.len() > 0 {
        lemma_lsh(ss.drop_last(), d);
        assert forall|j: int| 0 <= j < ss.len() - 1 implies #[trigger] ss.drop_last()[j] == ss[j] by {}
        if forall|j: int| 0 <= j < ss.len() ==> #[trigger] lheight(ss[j]) <= d {
            assert(lheight(ss[ss.len() - 1]) <= d);
            assert forall|j: int| 0 <= j < ss.len() - 1 implies #[trigger] lheight(ss.drop_last()[j]) <= d by {
                assert(lheight(ss[j]) <= d);
            }
        }
        if lsh(ss) <= d {
            assert forall|j: int| 0 <= j < ss.len() implies #[trigger] lheight(ss[j]) <= d by {
                if j < ss.len() - 1 {
                    assert(lheight(ss.drop_last()[j]) <= d);
                }
            }
        }
    }
}

pub proof fn lemma_lsh_sub(ss: Seq<SLin>, a: int, b: int)
    requires
        0 <= a <= b <= ss.len(),
    ensures
        lsh(ss.subrange(a, b)) <= lsh(ss),
{
    lemma_lsh(ss, lsh(ss));
    let sub = ss.subrange(a, b);
    assert forall|j: int| 0 <= j < sub.len() implies #[trigger] lheight(sub[j]) <= lsh(ss) by {
        assert(sub[j] == ss[a + j]);
    }
    lemma_lsh(sub, lsh(ss));
}

pub proof fn lemma_lsh_elem(ss: Seq<SLin>, j: int)
    requires
        0 <= j < ss.len(),
    ensures
        lheight(ss[j]) <= lsh(ss),
{
    lemma_lsh(ss, lsh(ss));
}

/// Whether a statement is an unconditional goto without an expression.
pub open spec fn is_goto7(l: SLin) -> bool {
    l matches SLin::Goto(None, cc, _) && cc == 7
}

/// The statements that are not unconditional gotos without an expression.
pub open spec fn filter_g7(ss: Seq<SLin>) -> Seq<SLin>
    decreases ss.len(),
{
    if ss.len() == 0 {
        Seq::empty()
    } else {
        let r = filter_g7(ss.drop_last());
        if is_goto7(ss.last()) {
            r
        } else {
            r.push(ss.last())
        }
    }
}

pub proof fn lemma_filter_g7(ss: Seq<SLin>)
    ensures
        filter_g7(ss).len() <= ss.len(),
        lsh(filter_g7(ss)) <= lsh(ss),
    decreases ss.len(),
{
    if ss.len() > 0 {
        lemma_filter_g7(ss.drop_last());
        let r = filter_g7(ss.drop_last());
        lemma_lsh_sub(ss, 0, ss.len() - 1);
        assert(ss.subrange(0, ss.len() - 1) =~= ss.drop_last());
        lemma_lsh_elem(ss, ss.len() - 1);
        if !is_goto7(ss.last()) {
            let q = r.push(ss.last());
            lemma_lsh(r, lsh(ss));
            assert forall|j: int| 0 <= j < q.len() implies #[trigger] lheight(q[j]) <= lsh(ss) by {
                if j < r.len() {
                    assert(q[j] == r[j]);
                }
            }
            lemma_lsh(q, lsh(ss));
        }
    }
}

/// The search after a conditional goto to `ft`: the first unconditional goto
/// (its index, its target, and the index of a label `ft` right after it),
/// unless a label `ft` comes first.
pub open spec fn scan1(s: Seq<SLin>, ft: u16, j: int) -> Option<(int, u16, Option<int>)>
    decreases s.len() - j,
{
    if j < 0 || j >= s.len() {
        None
    } else if is_goto7(s[j]) {
        let join = s[j]->Goto_2;
        Some((j, join, if j + 1 < s.len() && s[j + 1] == SLin::Label(ft) { Some(j + 1) } else { None }))
    } else if s[j] == SLin::Label(ft) {
        None
    } else {
        scan1(s, ft, j + 1)
    }
}

/// Where the else branch ends: at a label `join`, or just after an
/// unconditional goto to `join`.
pub open spec fn scan2(s: Seq<SLin>, join: u16, j: int) -> Option<int>
    decreases s.len() - j,
{
    if j < 0 || j >= s.len() {
        None
    } else if s[j] == SLin::Label(join) {
        Some(j)
    } else if is_goto7(s[j]) && s[j]->Goto_2 == join {
        Some(j + 1)
    } else {
        scan2(s, join, j + 1)
    }
}

/// The index of the first label `ft` from the `j`th statement on.
pub open spec fn find_label(s: Seq<SLin>, ft: u16, j: int) -> Option<int>
    decreases s.len() - j,
{
    if j < 0 || j >= s.len() {
        None
    } else if s[j] == SLin::Label(ft) {
        Some(j)
    } else {
        find_label(s, ft, j + 1)
    }
}

pub proof fn lemma_scan1(s: Seq<SLin>, ft: u16, j: int)
    requires
        0 <= j,
    ensures
        scan1(s, ft, j) matches Some((be, _, lp)) ==> j <= be < s.len() && (lp matches Some(li) ==> li == be + 1 && li < s.len()),
    decreases s.len() - j,
{
    if j < s.len() && !is_goto7(s[j]) && s[j] != SLin::Label(ft) {
        lemma_scan1(s, ft, j + 1);
    }
}

pub proof fn lemma_scan2(s: Seq<SLin>, join: u16, j: int)
    requires
        0 <= j,
    ensures
        scan2(s, join, j) matches Some(e) ==> j <= e <= s.len(),
    decreases s.len() - j,
{
    if j < s.len() && s[j] != SLin::Label(join) && !(is_goto7(s[j]) && s[j]->Goto_2 == join) {
        lemma_scan2(s, join, j + 1);
    }
}

pub proof fn lemma_find_label(s: Seq<SLin>, ft: u16, j: int)
    requires
        0 <= j,
    ensures
        find_label(s, ft, j) matches Some(li) ==> j <= li < s.len(),
    decreases s.len() - j,
{
    if j < s.len() && s[j] != SLin::Label(ft) {
        lemma_find_label(s, ft, j + 1);
    }
}

/// The structuring of if-goto patterns over a statement sequence.
pub open spec fn sig(s: Seq<SLin>) -> Seq<SLin>
    decreases lsh(s), s.len(), s.len() + 2,
{
    sig_from(s, 0)
}

/// A statement with the bodies of its loops and branches structured.
pub open spec fn sig_nested(s: Seq<SLin>, i: int) -> SLin
    recommends
        0 <= i < s.len(),
    decreases lsh(s), s.len(), 0int,
{
    if 0 <= i < s.len() {
        proof {
            lemma_lsh_elem(s, i);
        }
        match s[i] {
            SLin::While(c, cc, b) => SLin::While(c, cc, sig(b)),
            SLin::For(init, c, cc, incr, b) => SLin::For(init, c, cc, incr, sig(b)),
            SLin::DoWhile(c, cc, b) => SLin::DoWhile(c, cc, sig(b)),
            SLin::If(c, cc, t, f) => SLin::If(
                c,
                cc,
                sig(t),
                match f {
                    Some(fs) => Some(sig(fs)),
                    None => None,
                },
            ),
            _ => s[i],
        }
    } else {
        s[i]
    }
}

/// The structuring of if-goto patterns from the `i`th statement on. A
/// conditional goto to `ft` becomes an `If` on the negated condition over
/// the statements it skips: with an else branch up to the join point when
/// the skipped statements end in an unconditional goto followed by the
/// label `ft`; up to the label `ft` otherwise; or, where `ft` is not in the
/// sequence, over all the rest.
pub open spec fn sig_from(s: Seq<SLin>, i: int) -> Seq<SLin>
    decreases lsh(s), s.len(), if i <= s.len() { s.len() - i + 1 } else { 0 },
{
    if i < 0 || i >= s.len() {
        Seq::empty()
    } else {
        let dflt = seq![sig_nested(s, i)] + sig_from(s, i + 1);
        match s[i] {
            SLin::Goto(Some(cond), cc, ft) => if cc != 7 {
                let neg = neg_logical(cond);
                let ncc = negated_cc(cc);
                proof {
                    lemma_scan1(s, ft, i + 1);
                    lemma_find_label(s, ft, i + 1);
                }
                match scan1(s, ft, i + 1) {
                    Some((be, join, Some(li))) => {
                        proof {
                            lemma_lsh_sub(s, i + 1, be);
                            lemma_scan2(s, join, li + 1);
                        }
                        let tb = sig(s.subrange(i + 1, be));
                        let ee = scan2(s, join, li + 1);
                        let eb = match ee {
                            Some(e) => {
                                let es = filter_g7(s.subrange(li + 1, e));
                                proof {
                                    lemma_lsh_sub(s, li + 1, e);
                                    lemma_filter_g7(s.subrange(li + 1, e));
                                }
                                if es.len() == 0 {
                                    None
                                } else {
                                    Some(sig(es))
                                }
                            },
                            None => None,
                        };
                        let next = match ee {
                            Some(e) => e,
                            None => li + 1,
                        };
                        seq![SLin::If(Some(neg), ncc, tb, eb)] + sig_from(s, next)
                    },
                    _ => match find_label(s, ft, i + 1) {
                        Some(li) => if li > i + 1 {
                            proof {
                                lemma_lsh_sub(s, i + 1, li);
                            }
                            seq![SLin::If(Some(neg), ncc, sig(s.subrange(i + 1, li)), None)] + sig_from(s, li)
                        } else {
                            dflt
                        },
                        None => if i + 1 < s.len() {
                            proof {
                                lemma_lsh_sub(s, i + 1, s.len() as int);
                            }
                            seq![SLin::If(Some(neg), ncc, sig(s.subrange(i + 1, s.len() as int)), None)]
                        } else {
                            dflt
                        },
                    },
                }
            } else {
                dflt
            },
            _ => dflt,
        }
    }
}

/// Computes `is_goto7`.
fn is_goto7_of(l: &LinearStmt) -> (b: bool)
    ensures
        b == is_goto7(l@),
{
    match l {
        LinearStmt::Goto(None, cc, _) => *cc == 7,
        _ => false,
    }
}

/// Whether a statement is the label `a`.
fn is_label_of(l: &LinearStmt, a: u16) -> (b: bool)
    ensures
        b == (l@ == SLin::Label(a)),
{
    match l {
        LinearStmt::Label(x) => *x == a,
        _ => false,
    }
}

/// Computes `scan1`.
fn scan1_exec(v: &Vec<LinearStmt>, ft: u16, j: usize) -> (r: Option<(usize, u16, Option<usize>)>)
    ensures
        match r {
            Some((be, join, lp)) => scan1(lins_view(v@), ft, j as int) == Some((be as int, join, match lp {
                Some(x) => Some(x as int),
                None => None,
            })),
            None => scan1(lins_view(v@), ft, j as int) is None,
        },
{
    let ghost sv = lins_view(v@);
    proof {
        lemma_lins_view(v@);
    }
    let mut k: usize = j;
    while k < v.len()
        invariant
            j <= k,
            sv == lins_view(v@),
            sv.len() == v@.len(),
            forall|q: int| 0 <= q < v@.len() ==> #[trigger] sv[q] == lin_view(v@[q]),
            k <= v@.len() || k == j,
            scan1(sv, ft, j as int) == scan1(sv, ft, k as int),
        decreases v@.len() - k,
    {
        if is_goto7_of(&v[k]) {
            let join = match &v[k] {
                LinearStmt::Goto(_, _, t) => *t,
                _ => 0,
            };
            let lp = if k + 1 < v.len() && is_label_of(&v[k + 1], ft) {
                Some(k + 1)
            } else {
                None
            };
            return Some((k, join, lp));
        }
        if is_label_of(&v[k], ft) {
            return None;
        }
        k = k + 1;
    }
    None
}

/// Computes `scan2`.
fn scan2_exec(v: &Vec<LinearStmt>, join: u16, j: usize) -> (r: Option<usize>)
    ensures
        match r {
            Some(e) => scan2(lins_view(v@), join, j as int) == Some(e as int),
            None => scan2(lins_view(v@), join, j as int) is None,
        },
{
    let ghost sv = lins_view(v@);
    proof {
        lemma_lins_view(v@);
    }
    let mut k: usize = j;
    while k < v.len()
        invariant
            j <= k,
            sv == lins_view(v@),
            sv.len() == v@.len(),
            forall|q: int| 0 <= q < v@.len() ==> #[trigger] sv[q] == lin_view(v@[q]),
            scan2(sv, join, j as int) == scan2(sv, join, k as int),
        decreases v@.len() - k,
    {
        if is_label_of(&v[k], join) {
            return Some(k);
        }
        if is_goto7_of(&v[k]) {
            let t = match &v[k] {
                LinearStmt::Goto(_, _, t) => *t,
                _ => 0,
            };
            if t == join {
                return Some(k + 1);
            }
        }
        k = k + 1;
    }
    None
}

/// Computes `find_label`.
fn find_label_exec(v: &Vec<LinearStmt>, ft: u16, j: usize) -> (r: Option<usize>)
    ensures
        match r {
            Some(x) => find_label(lins_view(v@), ft, j as int) == Some(x as int),
            None => find_label(lins_view(v@), ft, j as int) is None,
        },
{
    let ghost sv = lins_view(v@);
    proof {
        lemma_lins_view(v@);
    }
    let mut k: usize = j;
    while k < v.len()
        invariant
            j <= k,
            sv == lins_view(v@),
            sv.len() == v@.len(),
            forall|q: int| 0 <= q < v@.len() ==> #[trigger] sv[q] == lin_view(v@[q]),
            find_label(sv, ft, j as int) == find_label(sv, ft, k as int),
        decreases v@.len() - k,
    {
        if is_label_of(&v[k], ft) {
            return Some(k);
        }
        k = k + 1;
    }
    None
}

/// The statements `v[a..b]` that are not unconditional gotos without an
/// expression.
fn filter_g7_range(v: &Vec<LinearStmt>, a: usize, b: usize) -> (r: Vec<LinearStmt>)
    requires
        a <= b <= v@.len(),
    ensures
        lins_view(r@) == filter_g7(lins_view(v@).subrange(a as int, b as int)),
{
    let ghost sv = lins_view(v@);
    proof {
        lemma_lins_view(v@);
    }
    let mut out: Vec<LinearStmt> = Vec::new();
    let mut k: usize = a;
    proof {
        assert(sv.subrange(a as int, a as int) =~= Seq::<SLin>::empty());
    }
    while k < b
        invariant
            a <= k <= b,
            b <= v@.len(),
            sv == lins_view(v@),
            sv.len() == v@.len(),
            forall|q: int| 0 <= q < v@.len() ==> #[trigger] sv[q] == lin_view(v@[q]),
            lins_view(out@) == filter_g7(sv.subrange(a as int, k as int)),
        decreases b - k,
    {
        proof {
            let x = sv.subrange(a as int, k + 1);
            assert(x.drop_last() =~= sv.subrange(a as int, k as int));
            assert(x.last() == sv[k as int]);
        }
        if !is_goto7_of(&v[k]) {
            push_lin(&mut out, v[k].duplicate());
        }
        k = k + 1;
    }
    out
}

/// Computes `sig_nested`.
fn sig_nested_exec(v: &Vec<LinearStmt>, i: usize) -> (r: LinearStmt)
    requires
        i < v@.len(),
    ensures
        r@ == sig_nested(lins_view(v@), i as int),
    decreases lsh(lins_view(v@)), v@.len(), 0int,
{
    proof {
        lemma_lins_view(v@);
        lemma_lsh_elem(lins_view(v@), i as int);
    }
    match &v[i] {
        LinearStmt::While(c, cc, b) => {
            let nb = structure_if_goto_patterns(duplicate_lins(b));
            LinearStmt::While(duplicate_opt(c), *cc, nb)
        },
        LinearStmt::For(init, c, cc, incr, b) => {
            let nb = structure_if_goto_patterns(duplicate_lins(b));
            LinearStmt::For(Box::new(init.duplicate()), duplicate_opt(c), *cc, Box::new(incr.duplicate()), nb)
        },
        LinearStmt::DoWhile(c, cc, b) => {
            let nb = structure_if_goto_patterns(duplicate_lins(b));
            LinearStmt::DoWhile(duplicate_opt(c), *cc, nb)
        },
        LinearStmt::If(c, cc, t, f) => {
            let nt = structure_if_goto_patterns(duplicate_lins(t));
            let nf = match f {
                Some(fs) => Some(structure_if_goto_patterns(duplicate_lins(fs))),
                None => None,
            };
            LinearStmt::If(duplicate_opt(c), *cc, nt, nf)
        },
        _ => v[i].duplicate(),
    }
}

/// Turns conditional gotos over the statements they skip into `If`
/// statements, with else branches where the pattern shows one (see
/// `sig_from`).
#[verifier::rlimit(60)]
pub fn structure_if_goto_patterns(stmts: Vec<LinearStmt>) -> (r: Vec<LinearStmt>)
    ensures
        lins_view(r@) == sig(lins_view(stmts@)),
    decreases lsh(lins_view(stmts@)), stmts@.len(), stmts@.len() + 2,
{
    let ghost sv = lins_view(stmts@);
    proof {
        lemma_lins_view(stmts@);
    }
    let mut result: Vec<LinearStmt> = Vec::new();
    let mut i: usize = 0;
    while i < stmts.len()
        invariant_except_break
            lins_view(result@) + sig_from(sv, i as int) == sig(sv),
        invariant
            sv == lins_view(stmts@),
            sv.len() == stmts@.len(),
            forall|q: int| 0 <= q < stmts@.len() ==> #[trigger] sv[q] == lin_view(stmts@[q]),
        ensures
            lins_view(result@) == sig(sv),
        decreases stmts@.len() - i,
    {
        let ghost r0 = lins_view(result@);
        if let LinearStmt::Goto(Some(cond), cc, ft) = &stmts[i] {
            let cc = *cc;
            let ft = *ft;
            if cc != 7 {
                let ncc = negate_cc(cc);
                proof {
                    lemma_scan1(sv, ft, i + 1);
                    lemma_find_label(sv, ft, i + 1);
                }
                let p1 = scan1_exec(&stmts, ft, i + 1);
                let mut done1 = false;
                if let Some((be, join, Some(li))) = p1 {
                    proof {
                        lemma_lsh_sub(sv, i + 1, be as int);
                        lemma_scan2(sv, join, li + 1);
                    }
                    let tv = duplicate_lin_range(&stmts, i + 1, be);
                    proof {
                        lemma_lins_view(tv@);
                        assert(be < stmts@.len());
                        assert(lsh(lins_view(tv@)) <= lsh(sv));
                    }
                    let tb = structure_if_goto_patterns(tv);
                    let ee = scan2_exec(&stmts, join, li + 1);
                    let eb = match ee {
                        Some(e) => {
                            proof {
                                lemma_lsh_sub(sv, li + 1, e as int);
                                lemma_filter_g7(sv.subrange(li + 1, e as int));
                            }
                            let es = filter_g7_range(&stmts, li + 1, e);
                            proof {
                                lemma_lins_view(es@);
                                assert(e <= stmts@.len());
                                assert(lsh(lins_view(es@)) <= lsh(sv));
                                assert(es@.len() < stmts@.len());
                            }
                            if es.len() == 0 {
                                None
                            } else {
                                Some(structure_if_goto_patterns(es))
                            }
                        },
                        None => None,
                    };
                    let next = match ee {
                        Some(e) => e,
                        None => li + 1,
                    };
                    push_lin(&mut result, LinearStmt::If(Some(negate_logical_expr(cond)), ncc, tb, eb));
                    proof {
                        assert(lins_view(result@) + sig_from(sv, next as int) =~= r0 + sig_from(sv, i as int));
                    }
                    i = next;
                    done1 = true;
                }
                if done1 {
                    continue;
                }
                match find_label_exec(&stmts, ft, i + 1) {
                    Some(li) => {
                        if li > i + 1 {
                            proof {
                                lemma_lsh_sub(sv, i + 1, li as int);
                            }
                            let bv = duplicate_lin_range(&stmts, i + 1, li);
                            proof {
                                lemma_lins_view(bv@);
                                assert(li < stmts@.len());
                                assert(lsh(lins_view(bv@)) <= lsh(sv));
                            }
                            let body = structure_if_goto_patterns(bv);
                            push_lin(&mut result, LinearStmt::If(Some(negate_logical_expr(cond)), ncc, body, None));
                            proof {
                                assert(lins_view(result@) + sig_from(sv, li as int) =~= r0 + sig_from(sv, i as int));
                            }
                            i = li;
                            continue;
                        }
                    },
                    None => {
                        if i + 1 < stmts.len() {
                            proof {
                                lemma_lsh_sub(sv, i + 1, sv.len() as int);
                            }
                            let n = stmts.len();
                            let bv = duplicate_lin_range(&stmts, i + 1, n);
                            proof {
                                lemma_lins_view(bv@);
                                assert(lsh(lins_view(bv@)) <= lsh(sv));
                            }
                            let body = structure_if_goto_patterns(bv);
                            push_lin(&mut result, LinearStmt::If(Some(negate_logical_expr(cond)), ncc, body, None));
                            proof {
                                assert(lins_view(result@) =~= r0 + sig_from(sv, i as int));
                            }
                            break;
                        }
                    },
                }
            }
        }
        let l = sig_nested_exec(&stmts, i);
        push_lin(&mut result, l);
        proof {
            assert(lins_view(result@) + sig_from(sv, i + 1) =~= r0 + sig_from(sv, i as int));
        }
        i = i + 1;
    }
    result
}


/// The targets of the gotos in a linear statement, nested bodies included
/// (but not the initialisation and increment of `For` loops).
pub open spec fn ltargets(l: SLin) -> Set<u16>
    decreases l,
{
    match l {
        SLin::Goto(_, _, t) => set![t],
        SLin::While(_, _, b) => ltargets_ss(b),
        SLin::DoWhile(_, _, b) => ltargets_ss(b),
        SLin::For(_, _, _, _, b) => ltargets_ss(b),
        SLin::If(_, _, t, f) => ltargets_ss(t) + match f {
            Some(fs) => ltargets_ss(fs),
            None => Set::empty(),
        },
        _ => Set::empty(),
    }
}

/// `ltargets` of every statement.
pub open spec fn ltargets_ss(ss: Seq<SLin>) -> Set<u16>
    decreases ss,
{
    if ss.len() == 0 {
        Set::empty()
    } else {
        ltargets_ss(ss.drop_last()) + ltargets(ss.last())
    }
}

/// Adds the goto targets of a vector of linear statements to `targets`.
fn collect_goto_targets_linear(stmts: &Vec<LinearStmt>, targets: &mut AddrSet)
    requires
        old(targets).wf(),
    ensures
        final(targets).wf(),
        final(targets).set() == old(targets).set() + ltargets_ss(lins_view(stmts@)),
    decreases stmts, 0int,
{
    let ghost t0 = targets.set();
    proof {
        lemma_lins_view(stmts@);
    }
    let mut i: usize = 0;
    while i < stmts.len()
        invariant
            i <= stmts@.len(),
            targets.wf(),
            lins_view(stmts@).len() == stmts@.len(),
            forall|q: int| 0 <= q < stmts@.len() ==> #[trigger] lins_view(stmts@)[q] == lin_view(stmts@[q]),
            targets.set() == t0 + ltargets_ss(lins_view(stmts@).subrange(0, i as int)),
        decreases stmts@.len() - i,
    {
        proof {
            assert(decreases_to!(stmts => stmts[i as int]));
            let x = lins_view(stmts@).subrange(0, i + 1);
            assert(x.drop_last() =~= lins_view(stmts@).subrange(0, i as int));
        }
        collect_lin_targets(&stmts[i], targets);
        proof {
            let x = lins_view(stmts@).subrange(0, i + 1);
            assert(targets.set() =~= t0 + ltargets_ss(x));
        }
        i = i + 1;
    }
    proof {
        assert(lins_view(stmts@).subrange(0, i as int) =~= lins_view(stmts@));
    }
}

/// Adds the goto targets of one linear statement to `targets`.
fn collect_lin_targets(l: &LinearStmt, targets: &mut AddrSet)
    requires
        old(targets).wf(),
    ensures
        final(targets).wf(),
        final(targets).set() == old(targets).set() + ltargets(l@),
    decreases l, 1int,
{
    let ghost t0 = targets.set();
    match l {
        LinearStmt::Goto(_, _, t) => {
            targets.insert(*t);
            proof {
                assert(targets.set() =~= t0 + set![*t]);
            }
        },
        LinearStmt::While(_, _, b) => collect_goto_targets_linear(b, targets),
        LinearStmt::DoWhile(_, _, b) => collect_goto_targets_linear(b, targets),
        LinearStmt::For(_, _, _, _, b) => collect_goto_targets_linear(b, targets),
        LinearStmt::If(_, _, t, f) => {
            collect_goto_targets_linear(t, targets);
            match f {
                Some(fs) => {
                    collect_goto_targets_linear(fs, targets);
                    proof {
                        assert(targets.set() =~= t0 + ltargets(l@));
                    }
                },
                None => {
                    proof {
                        assert(targets.set() =~= t0 + ltargets(l@));
                    }
                },
            }
        },
        _ => {
            proof {
                assert(targets.set() =~= t0 + ltargets(l@));
            }
        },
    }
}

/// A statement with the labels in its nested bodies that are not in `t`
/// removed.
pub open spec fn strip_labels(l: SLin, t: Set<u16>) -> SLin
    decreases l,
{
    match l {
        SLin::While(c, cc, b) => SLin::While(c, cc, strip_labels_ss(b, t)),
        SLin::DoWhile(c, cc, b) => SLin::DoWhile(c, cc, strip_labels_ss(b, t)),
        SLin::For(i, c, cc, n, b) => SLin::For(i, c, cc, n, strip_labels_ss(b, t)),
        SLin::If(c, cc, tb, fb) => SLin::If(
            c,
            cc,
            strip_labels_ss(tb, t),
            match fb {
                Some(fs) => Some(strip_labels_ss(fs, t)),
                None => None,
            },
        ),
        _ => l,
    }
}

/// The statements without the labels that are not in `t`, at any depth.
pub open spec fn strip_labels_ss(ss: Seq<SLin>, t: Set<u16>) -> Seq<SLin>
    decreases ss,
{
    if ss.len() == 0 {
        Seq::empty()
    } else {
        let r = strip_labels_ss(ss.drop_last(), t);
        match ss.last() {
            SLin::Label(a) => if t.contains(a) {
                r.push(SLin::Label(a))
            } else {
                r
            },
            _ => r.push(strip_labels(ss.last(), t)),
        }
    }
}

/// Computes `strip_labels_ss` on a vector.
fn strip_labels_vec(v: &Vec<LinearStmt>, targets: &AddrSet) -> (r: Vec<LinearStmt>)
    requires
        targets.wf(),
    ensures
        lins_view(r@) == strip_labels_ss(lins_view(v@), targets.set()),
    decreases v, 0int,
{
    proof {
        lemma_lins_view(v@);
    }
    let mut out: Vec<LinearStmt> = Vec::new();
    let mut i: usize = 0;
    while i < v.len()
        invariant
            i <= v@.len(),
            targets.wf(),
            lins_view(v@).len() == v@.len(),
            forall|q: int| 0 <= q < v@.len() ==> #[trigger] lins_view(v@)[q] == lin_view(v@[q]),
            lins_view(out@) == strip_labels_ss(lins_view(v@).subrange(0, i as int), targets.set()),
        decreases v@.len() - i,
    {
        proof {
            assert(decreases_to!(v => v[i as int]));
            let x = lins_view(v@).subrange(0, i + 1);
            assert(x.drop_last() =~= lins_view(v@).subrange(0, i as int));
            assert(x.last() == lin_view(v@[i as int]));
        }
        match &v[i] {
            LinearStmt::Label(a) => {
                if targets.contains(*a) {
                    push_lin(&mut out, LinearStmt::Label(*a));
                }
            },
            _ => {
                let l = strip_labels_one(&v[i], targets);
                push_lin(&mut out, l);
            },
        }
        i = i + 1;
    }
    proof {
        assert(lins_view(v@).subrange(0, i as int) =~= lins_view(v@));
    }
    out
}

/// Computes `strip_labels` on one statement.
fn strip_labels_one(l: &LinearStmt, targets: &AddrSet) -> (r: LinearStmt)
    requires
        targets.wf(),
    ensures
        r@ == strip_labels(l@, targets.set()),
    decreases l, 1int,
{
    match l {
        LinearStmt::While(c, cc, b) => LinearStmt::While(duplicate_opt(c), *cc, strip_labels_vec(b, targets)),
        LinearStmt::DoWhile(c, cc, b) => LinearStmt::DoWhile(duplicate_opt(c), *cc, strip_labels_vec(b, targets)),
        LinearStmt::For(i, c, cc, n, b) => LinearStmt::For(
            Box::new(i.duplicate()),
            duplicate_opt(c),
            *cc,
            Box::new(n.duplicate()),
            strip_labels_vec(b, targets),
        ),
        LinearStmt::If(c, cc, tb, fb) => LinearStmt::If(
            duplicate_opt(c),
            *cc,
            strip_labels_vec(tb, targets),
            match fb {
                Some(fs) => Some(strip_labels_vec(fs, targets)),
                None => None,
            },
        ),
        _ => l.duplicate(),
    }
}

/// Removes, at any depth, the labels that are not in `targets`.
fn remove_orphaned_labels_inner(stmts: Vec<LinearStmt>, targets: &AddrSet) -> (r: Vec<LinearStmt>)
    requires
        targets.wf(),
    ensures
        lins_view(r@) == strip_labels_ss(lins_view(stmts@), targets.set()),
{
    strip_labels_vec(&stmts, targets)
}

/// Removes the labels that no goto in the statements (at any depth) targets.
pub fn remove_orphaned_labels(stmts: Vec<LinearStmt>) -> (r: Vec<LinearStmt>)
    ensures
        lins_view(r@) == strip_labels_ss(lins_view(stmts@), ltargets_ss(lins_view(stmts@))),
        strip_labels_ss(lins_view(r@), Set::empty()) == strip_labels_ss(lins_view(stmts@), Set::empty()),
        crate::laws::label_seq_ss(lins_view(r@)) == crate::laws::label_seq_ss(lins_view(stmts@)).filter(
            |a: u16| ltargets_ss(lins_view(stmts@)).contains(a),
        ),
        strip_labels_ss(lins_view(r@), ltargets_ss(lins_view(r@))) == lins_view(r@),
{
    proof {
        crate::laws::law_orphaned_labels_kept(lins_view(stmts@));
        crate::laws::law_orphaned_labels(lins_view(stmts@));
    }
    let mut targets = AddrSet::new();
    collect_goto_targets_linear(&stmts, &mut targets);
    proof {
        assert(targets.set() =~= ltargets_ss(lins_view(stmts@)));
    }
    remove_orphaned_labels_inner(stmts, &targets)
}

} // verus!
