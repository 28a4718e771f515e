use vstd::prelude::*;
use crate::addr_map::AddrMap;

verus! {

/// An expression of the intermediate representation.
#[derive(Debug)]
pub enum Expr {
    Register(u8),
    Immediate(i16),
    Add(Box<Expr>, Box<Expr>),
    And(Box<Expr>, Box<Expr>),
    Not(Box<Expr>),
    Neg(Box<Expr>),
    Sub(Box<Expr>, Box<Expr>),
    /// A memory load from an address.
    Load(Box<Expr>),
    /// A function parameter (0-indexed).
    Param(u8),
    /// A function call used as a value.
    Call(Box<Expr>, Vec<Expr>),
    /// `(lhs cc) && (rhs cc)`.
    LogicalAnd(Box<Expr>, u8, Box<Expr>, u8),
    /// `(lhs cc) || (rhs cc)`.
    LogicalOr(Box<Expr>, u8, Box<Expr>, u8),
}

/// The mathematical model of an expression.
pub enum SExpr {
    Register(u8),
    Immediate(i16),
    Add(Box<SExpr>, Box<SExpr>),
    And(Box<SExpr>, Box<SExpr>),
    Not(Box<SExpr>),
    Neg(Box<SExpr>),
    Sub(Box<SExpr>, Box<SExpr>),
    Load(Box<SExpr>),
    Param(u8),
    Call(Box<SExpr>, Seq<SExpr>),
    LogicalAnd(Box<SExpr>, u8, Box<SExpr>, u8),
    LogicalOr(Box<SExpr>, u8, Box<SExpr>, u8),
}

/// The kind of a statement of the intermediate representation. Loop bodies
/// are blocks keyed by their start address.
#[derive(Debug)]
pub enum IRStmtKind {
    /// `reg = expr`.
    Assign(u8, Expr),
    /// `mem[addr] = value`.
    Store(Expr, Expr),
    /// A branch on `expr` with condition code `cc` to `target`.
    Goto(Option<Expr>, u8, u16),
    Call(Expr, Vec<Expr>),
    Return(Option<Expr>),
    Trap(u8),
    DoWhile(Option<Expr>, u8, AddrMap<Vec<IRStmt>>),
    While(Option<Expr>, u8, AddrMap<Vec<IRStmt>>),
    For(Box<IRStmt>, Option<Expr>, u8, Box<IRStmt>, AddrMap<Vec<IRStmt>>),
    If(Option<Expr>, u8, Vec<IRStmt>, Option<Vec<IRStmt>>),
    Break,
    Continue,
}

/// A statement of the intermediate representation and the address of the
/// instruction it comes from.
#[derive(Debug)]
pub struct IRStmt {
    pub addr: u16,
    pub kind: IRStmtKind,
}

/// The mathematical model of a statement kind.
pub enum SKind {
    Assign(u8, SExpr),
    Store(SExpr, SExpr),
    Goto(Option<SExpr>, u8, u16),
    Call(SExpr, Seq<SExpr>),
    Return(Option<SExpr>),
    Trap(u8),
    DoWhile(Option<SExpr>, u8, Seq<(u16, Seq<SStmt>)>),
    While(Option<SExpr>, u8, Seq<(u16, Seq<SStmt>)>),
    For(Box<SStmt>, Option<SExpr>, u8, Box<SStmt>, Seq<(u16, Seq<SStmt>)>),
    If(Option<SExpr>, u8, Seq<SStmt>, Option<Seq<SStmt>>),
    Break,
    Continue,
}

/// The mathematical model of a statement.
pub struct SStmt {
    pub addr: u16,
    pub kind: SKind,
}

impl View for Expr {
    type V = SExpr;

    open spec fn view(&self) -> SExpr {
        expr_view(*self)
    }
}

/// The model of an expression.
pub open spec fn expr_view(e: Expr) -> SExpr
    decreases e,
{
    match e {
        Expr::Register(r) => SExpr::Register(r),
        Expr::Immediate(v) => SExpr::Immediate(v),
        Expr::Add(a, b) => SExpr::Add(Box::new(expr_view(*a)), Box::new(expr_view(*b))),
        Expr::And(a, b) => SExpr::And(Box::new(expr_view(*a)), Box::new(expr_view(*b))),
        Expr::Not(a) => SExpr::Not(Box::new(expr_view(*a))),
        Expr::Neg(a) => SExpr::Neg(Box::new(expr_view(*a))),
        Expr::Sub(a, b) => SExpr::Sub(Box::new(expr_view(*a)), Box::new(expr_view(*b))),
        Expr::Load(a) => SExpr::Load(Box::new(expr_view(*a))),
        Expr::Param(i) => SExpr::Param(i),
        Expr::Call(t, args) => SExpr::Call(Box::new(expr_view(*t)), exprs_view(args@)),
        Expr::LogicalAnd(a, c, b, d) => SExpr::LogicalAnd(Box::new(expr_view(*a)), c, Box::new(expr_view(*b)), d),
        Expr::LogicalOr(a, c, b, d) => SExpr::LogicalOr(Box::new(expr_view(*a)), c, Box::new(expr_view(*b)), d),
    }
}

/// The models of a sequence of expressions.
pub open spec fn exprs_view(s: Seq<Expr>) -> Seq<SExpr>
    decreases s,
{
    if s.len() == 0 {
        Seq::empty()
    } else {
        exprs_view(s.drop_last()).push(expr_view(s.last()))
    }
}

/// The model of an optional expression.
pub open spec fn opt_view(e: Option<Expr>) -> Option<SExpr> {
    match e {
        Some(x) => Some(expr_view(x)),
        None => None,
    }
}

impl View for IRStmt {
    type V = SStmt;

    open spec fn view(&self) -> SStmt {
        stmt_view(*self)
    }
}

/// The model of a statement.
pub open spec fn stmt_view(s: IRStmt) -> SStmt
    decreases s,
{
    SStmt { addr: s.addr, kind: kind_view(s.kind) }
}

/// The model of a statement kind.
pub open spec fn kind_view(k: IRStmtKind) -> SKind
    decreases k,
{
    match k {
        IRStmtKind::Assign(r, e) => SKind::Assign(r, expr_view(e)),
        IRStmtKind::Store(a, v) => SKind::Store(expr_view(a), expr_view(v)),
        IRStmtKind::Goto(e, cc, t) => SKind::Goto(opt_view(e), cc, t),
        IRStmtKind::Call(t, args) => SKind::Call(expr_view(t), exprs_view(args@)),
        IRStmtKind::Return(e) => SKind::Return(opt_view(e)),
        IRStmtKind::Trap(v) => SKind::Trap(v),
        IRStmtKind::DoWhile(c, cc, body) => SKind::DoWhile(opt_view(c), cc, blocks_view(body.entries@)),
        IRStmtKind::While(c, cc, body) => SKind::While(opt_view(c), cc, blocks_view(body.entries@)),
        IRStmtKind::For(init, c, cc, incr, body) => SKind::For(
            Box::new(stmt_view(*init)),
            opt_view(c),
            cc,
            Box::new(stmt_view(*incr)),
            blocks_view(body.entries@),
        ),
        IRStmtKind::If(c, cc, t, f) => SKind::If(
            opt_view(c),
            cc,
            stmts_view(t@),
            match f {
                Some(fs) => Some(stmts_view(fs@)),
                None => None,
            },
        ),
        IRStmtKind::Break => SKind::Break,
        IRStmtKind::Continue => SKind::Continue,
    }
}

/// The models of a sequence of statements.
pub open spec fn stmts_view(s: Seq<IRStmt>) -> Seq<SStmt>
    decreases s,
{
    if s.len() == 0 {
        Seq::empty()
    } else {
        stmts_view(s.drop_last()).push(stmt_view(s.last()))
    }
}

/// The models of a sequence of blocks.
pub open spec fn blocks_view(s: Seq<(u16, Vec<IRStmt>)>) -> Seq<(u16, Seq<SStmt>)>
    decreases s,
{
    if s.len() == 0 {
        Seq::empty()
    } else {
        blocks_view(s.drop_last()).push((s.last().0, stmts_view(s.last().1@)))
    }
}

pub proof fn lemma_exprs_view(s: Seq<Expr>)
    ensures
        exprs_view(s).len() == s.len(),
        forall|i: int| 0 <= i < s.len() ==> #[trigger] exprs_view(s)[i] == expr_view(s[i]),
    decreases s.len(),
{
    if s.len() > 0 {
        lemma_exprs_view(s.drop_last());
        assert forall|i: int| 0 <= i < s.len() implies #[trigger] exprs_view(s)[i] == expr_view(s[i]) by {
            if i < s.len() - 1 {
                assert(s.drop_last()[i] == s[i]);
            }
        }
    }
}

pub proof fn lemma_stmts_view(s: Seq<IRStmt>)
    ensures
        stmts_view(s).len() == s.len(),
        forall|i: int| 0 <= i < s.len() ==> #[trigger] stmts_view(s)[i] == stmt_view(s[i]),
    decreases s.len(),
{
    if s.len() > 0 {
        lemma_stmts_view(s.drop_last());
        assert forall|i: int| 0 <= i < s.len() implies #[trigger] stmts_view(s)[i] == stmt_view(s[i]) by {
            if i < s.len() - 1 {
                assert(s.drop_last()[i] == s[i]);
            }
        }
    }
}

pub proof fn lemma_blocks_view(s: Seq<(u16, Vec<IRStmt>)>)
    ensures
        blocks_view(s).len() == s.len(),
        forall|i: int| 0 <= i < s.len() ==> #[trigger] blocks_view(s)[i] == (s[i].0, stmts_view(s[i].1@)),
    decreases s.len(),
{
    if s.len() > 0 {
        lemma_blocks_view(s.drop_last());
        assert forall|i: int| 0 <= i < s.len() implies #[trigger] blocks_view(s)[i] == (s[i].0, stmts_view(s[i].1@)) by {
            if i < s.len() - 1 {
                assert(s.drop_last()[i] == s[i]);
            }
        }
    }
}

/// Views of sequences that agree element by element are equal.
pub proof fn lemma_exprs_view_eq(a: Seq<Expr>, b: Seq<Expr>)
    requires
        a.len() == b.len(),
        forall|i: int| 0 <= i < a.len() ==> #[trigger] expr_view(a[i]) == expr_view(b[i]),
    ensures
        exprs_view(a) == exprs_view(b),
{
    lemma_exprs_view(a);
    lemma_exprs_view(b);
    assert(exprs_view(a) =~= exprs_view(b));
}

pub proof fn lemma_stmts_view_eq(a: Seq<IRStmt>, b: Seq<IRStmt>)
    requires
        a.len() == b.len(),
        forall|i: int| 0 <= i < a.len() ==> #[trigger] stmt_view(a[i]) == stmt_view(b[i]),
    ensures
        stmts_view(a) == stmts_view(b),
{
    lemma_stmts_view(a);
    lemma_stmts_view(b);
    assert(stmts_view(a) =~= stmts_view(b));
}

pub proof fn lemma_blocks_view_eq(a: Seq<(u16, Vec<IRStmt>)>, b: Seq<(u16, Vec<IRStmt>)>)
    requires
        a.len() == b.len(),
        forall|i: int| 0 <= i < a.len() ==> #[trigger] a[i].0 == b[i].0 && stmts_view(a[i].1@) == stmts_view(b[i].1@),
    ensures
        blocks_view(a) == blocks_view(b),
{
    lemma_blocks_view(a);
    lemma_blocks_view(b);
    assert(blocks_view(a) =~= blocks_view(b));
}

impl Expr {
    /// A copy of the expression.
    pub fn duplicate(&self) -> (r: Expr)
        ensures
            r@ == self@,
        decreases self,
    {
        match self {
            Expr::Register(r) => Expr::Register(*r),
            Expr::Immediate(v) => Expr::Immediate(*v),
            Expr::Add(a, b) => Expr::Add(Box::new(a.duplicate()), Box::new(b.duplicate())),
            Expr::And(a, b) => Expr::And(Box::new(a.duplicate()), Box::new(b.duplicate())),
            Expr::Not(a) => Expr::Not(Box::new(a.duplicate())),
            Expr::Neg(a) => Expr::Neg(Box::new(a.duplicate())),
            Expr::Sub(a, b) => Expr::Sub(Box::new(a.duplicate()), Box::new(b.duplicate())),
            Expr::Load(a) => Expr::Load(Box::new(a.duplicate())),
            Expr::Param(i) => Expr::Param(*i),
            Expr::Call(t, args) => Expr::Call(Box::new(t.duplicate()), duplicate_exprs(args)),
            Expr::LogicalAnd(a, c, b, d) => Expr::LogicalAnd(Box::new(a.duplicate()), *c, Box::new(b.duplicate()), *d),
            Expr::LogicalOr(a, c, b, d) => Expr::LogicalOr(Box::new(a.duplicate()), *c, Box::new(b.duplicate()), *d),
        }
    }
}

/// A copy of a vector of expressions.
pub fn duplicate_exprs(v: &Vec<Expr>) -> (r: Vec<Expr>)
    ensures
        exprs_view(r@) == exprs_view(v@),
    decreases v,
{
    let mut r: Vec<Expr> = Vec::new();
    let mut i: usize = 0;
    while i < v.len()
        invariant
            i <= v@.len(),
            r@.len() == i,
            forall|j: int| 0 <= j < i ==> #[trigger] expr_view(r@[j]) == expr_view(v@[j]),
        decreases v@.len() - i,
    {
        proof {
            assert(decreases_to!(v => v[i as int]));
        }
        r.push(v[i].duplicate());
        i = i + 1;
    }
    proof {
        lemma_exprs_view_eq(r@, v@);
    }
    r
}

/// A copy of an optional expression.
pub fn duplicate_opt(e: &Option<Expr>) -> (r: Option<Expr>)
    ensures
        opt_view(r) == opt_view(*e),
{
    match e {
        Some(x) => Some(x.duplicate()),
        None => None,
    }
}

impl IRStmt {
    /// A copy of the statement.
    pub fn duplicate(&self) -> (r: IRStmt)
        ensures
            r@ == self@,
        decreases self,
    {
        let kind = match &self.kind {
            IRStmtKind::Assign(r, e) => IRStmtKind::Assign(*r, e.duplicate()),
            IRStmtKind::Store(a, v) => IRStmtKind::Store(a.duplicate(), v.duplicate()),
            IRStmtKind::Goto(e, cc, t) => IRStmtKind::Goto(duplicate_opt(e), *cc, *t),
            IRStmtKind::Call(t, args) => IRStmtKind::Call(t.duplicate(), duplicate_exprs(args)),
            IRStmtKind::Return(e) => IRStmtKind::Return(duplicate_opt(e)),
            IRStmtKind::Trap(v) => IRStmtKind::Trap(*v),
            IRStmtKind::DoWhile(c, cc, body) => IRStmtKind::DoWhile(duplicate_opt(c), *cc, duplicate_blocks(body)),
            IRStmtKind::While(c, cc, body) => IRStmtKind::While(duplicate_opt(c), *cc, duplicate_blocks(body)),
            IRStmtKind::For(init, c, cc, incr, body) => IRStmtKind::For(
                Box::new(init.duplicate()),
                duplicate_opt(c),
                *cc,
                Box::new(incr.duplicate()),
                duplicate_blocks(body),
            ),
            IRStmtKind::If(c, cc, t, f) => IRStmtKind::If(
                duplicate_opt(c),
                *cc,
                duplicate_stmts(t),
                match f {
                    Some(fs) => Some(duplicate_stmts(fs)),
                    None => None,
                },
            ),
            IRStmtKind::Break => IRStmtKind::Break,
            IRStmtKind::Continue => IRStmtKind::Continue,
        };
        IRStmt { addr: self.addr, kind }
    }
}

/// A copy of a vector of statements.
pub fn duplicate_stmts(v: &Vec<IRStmt>) -> (r: Vec<IRStmt>)
    ensures
        stmts_view(r@) == stmts_view(v@),
    decreases v,
{
    let mut r: Vec<IRStmt> = Vec::new();
    let mut i: usize = 0;
    while i < v.len()
        invariant
            i <= v@.len(),
            r@.len() == i,
            forall|j: int| 0 <= j < i ==> #[trigger] stmt_view(r@[j]) == stmt_view(v@[j]),
        decreases v@.len() - i,
    {
        proof {
            assert(decreases_to!(v => v[i as int]));
        }
        r.push(v[i].duplicate());
        i = i + 1;
    }
    proof {
        lemma_stmts_view_eq(r@, v@);
    }
    r
}

/// A copy of a map of blocks.
pub fn duplicate_blocks(m: &AddrMap<Vec<IRStmt>>) -> (r: AddrMap<Vec<IRStmt>>)
    ensures
        blocks_view(r.entries@) == blocks_view(m.entries@),
        m.wf() ==> r.wf(),
        r.key_seq() == m.key_seq(),
    decreases m,
{
    let mut entries: Vec<(u16, Vec<IRStmt>)> = Vec::new();
    let mut i: usize = 0;
    while i < m.entries.len()
        invariant
            i <= m.entries@.len(),
            entries@.len() == i,
            forall|j: int| 0 <= j < i ==> #[trigger] entries@[j].0 == m.entries@[j].0 && stmts_view(entries@[j].1@)
                == stmts_view(m.entries@[j].1@),
        decreases m.entries@.len() - i,
    {
        proof {
            assert(decreases_to!(m => m.entries));
            assert(decreases_to!(m.entries => m.entries[i as int]));
            assert(decreases_to!(m.entries[i as int] => m.entries[i as int].1));
        }
        let k = m.entries[i].0;
        let stmts = duplicate_stmts(&m.entries[i].1);
        entries.push((k, stmts));
        i = i + 1;
    }
    proof {
        lemma_blocks_view_eq(entries@, m.entries@);
    }
    let r = AddrMap { entries };
    proof {
        assert(r.key_seq() =~= m.key_seq());
        if m.wf() {
            assert forall|a: int, b: int| 0 <= a < b < r.entries@.len() implies #[trigger] r.entries@[a].0 < #[trigger] r.entries@[b].0 by {
                assert(m.entries@[a].0 < m.entries@[b].0);
            }
        }
    }
    r
}

/// Every register a statement assigns, nested statements included, is below 8.
pub open spec fn stmt_regs_ok(s: SStmt) -> bool
    decreases s,
{
    match s.kind {
        SKind::Assign(r, _) => r < 8,
        SKind::DoWhile(_, _, b) => blocks_regs_ok(b),
        SKind::While(_, _, b) => blocks_regs_ok(b),
        SKind::For(i, _, _, n, b) => stmt_regs_ok(*i) && stmt_regs_ok(*n) && blocks_regs_ok(b),
        SKind::If(_, _, t, f) => stmts_regs_ok(t) && match f {
            Some(fs) => stmts_regs_ok(fs),
            None => true,
        },
        _ => true,
    }
}

/// `stmt_regs_ok` of each statement.
pub open spec fn stmts_regs_ok(s: Seq<SStmt>) -> bool
    decreases s,
{
    if s.len() == 0 {
        true
    } else {
        stmts_regs_ok(s.drop_last()) && stmt_regs_ok(s.last())
    }
}

/// `stmt_regs_ok` of each statement of each block.
pub open spec fn blocks_regs_ok(b: Seq<(u16, Seq<SStmt>)>) -> bool
    decreases b,
{
    if b.len() == 0 {
        true
    } else {
        blocks_regs_ok(b.drop_last()) && stmts_regs_ok(b.last().1)
    }
}

pub proof fn lemma_stmts_regs_ok(s: Seq<SStmt>)
    ensures
        stmts_regs_ok(s) <==> forall|i: int| 0 <= i < s.len() ==> #[trigger] stmt_regs_ok(s[i]),
    decreases s.len(),
{
    if s.len() > 0 {
        lemma_stmts_regs_ok(s.drop_last());
        if stmts_regs_ok(s) {
            assert forall|i: int| 0 <= i < s.len() implies #[trigger] stmt_regs_ok(s[i]) by {
                if i < s.len() - 1 {
                    assert(s.drop_last()[i] == s[i]);
                }
            }
        }
        if forall|i: int| 0 <= i < s.len() ==> #[trigger] stmt_regs_ok(s[i]) {
            assert forall|i: int| 0 <= i < s.len() - 1 implies #[trigger] stmt_regs_ok(s.drop_last()[i]) by {
                assert(s.drop_last()[i] == s[i]);
            }
            assert(stmt_regs_ok(s[s.len() - 1]));
        }
    }
}

pub proof fn lemma_blocks_regs_ok(b: Seq<(u16, Seq<SStmt>)>)
    ensures
        blocks_regs_ok(b) <==> forall|i: int| 0 <= i < b.len() ==> #[trigger] stmts_regs_ok(b[i].1),
    decreases b.len(),
{
    if b.len() > 0 {
        lemma_blocks_regs_ok(b.drop_last());
        if blocks_regs_ok(b) {
            assert forall|i: int| 0 <= i < b.len() implies #[trigger] stmts_regs_ok(b[i].1) by {
                if i < b.len() - 1 {
                    assert(b.drop_last()[i] == b[i]);
                }
            }
        }
        if forall|i: int| 0 <= i < b.len() ==> #[trigger] stmts_regs_ok(b[i].1) {
            assert forall|i: int| 0 <= i < b.len() - 1 implies #[trigger] stmts_regs_ok(b.drop_last()[i].1) by {
                assert(b.drop_last()[i] == b[i]);
            }
            assert(stmts_regs_ok(b[b.len() - 1].1));
        }
    }
}

/// Whether `e` is the immediate `v`.
pub open spec fn is_imm_val(e: SExpr, v: i16) -> bool {
    e matches SExpr::Immediate(x) && x == v
}

/// Whether `l` and `r` are the same register or the same immediate.
pub open spec fn same_leaf(l: SExpr, r: SExpr) -> bool {
    ||| (l matches SExpr::Register(a) && r matches SExpr::Register(b) && a == b)
    ||| (l matches SExpr::Immediate(a) && r matches SExpr::Immediate(b) && a == b)
}

/// `a + b` on 16-bit values, wrapping around.
pub open spec fn wadd(a: i16, b: i16) -> i16 {
    vstd::wrapping::i16_specs::wrapping_add(a, b)
}

/// `a - b` on 16-bit values, wrapping around.
pub open spec fn wsub(a: i16, b: i16) -> i16 {
    vstd::wrapping::i16_specs::wrapping_sub(a, b)
}

/// The simplification of `l & r` (operands already simplified): a zero
/// operand gives zero, an all-ones operand gives the other one, two
/// immediates fold, and equal registers give the register.
pub open spec fn and_rule(l: SExpr, r: SExpr, ch: bool) -> (SExpr, bool) {
    if is_imm_val(l, 0) || is_imm_val(r, 0) {
        (SExpr::Immediate(0), true)
    } else if is_imm_val(l, -1i16) {
        (r, true)
    } else if is_imm_val(r, -1i16) {
        (l, true)
    } else if l is Immediate && r is Immediate {
        (SExpr::Immediate(l->Immediate_0 & r->Immediate_0), true)
    } else if same_leaf(l, r) {
        (l, true)
    } else {
        (SExpr::And(Box::new(l), Box::new(r)), ch)
    }
}

/// The simplification of `l + r` (operands already simplified): adding zero,
/// folding immediates, `~x + 1` as `-x`, adding a negation as a subtraction,
/// and merging an immediate into an addition that ends with one.
pub open spec fn add_rule(l: SExpr, r: SExpr, ch: bool) -> (SExpr, bool) {
    if is_imm_val(l, 0) {
        (r, true)
    } else if is_imm_val(r, 0) {
        (l, true)
    } else if l is Immediate && r is Immediate {
        (SExpr::Immediate(wadd(l->Immediate_0, r->Immediate_0)), true)
    } else if l is Not && is_imm_val(r, 1) {
        (SExpr::Neg(l->Not_0), true)
    } else if is_imm_val(l, 1) && r is Not {
        (SExpr::Neg(r->Not_0), true)
    } else if r is Neg {
        (SExpr::Sub(Box::new(l), r->Neg_0), true)
    } else if l is Neg {
        (SExpr::Sub(Box::new(r), l->Neg_0), true)
    } else if l is Add && r is Immediate {
        if (*l->Add_1) is Immediate {
            (SExpr::Add(l->Add_0, Box::new(SExpr::Immediate(wadd((*l->Add_1)->Immediate_0, r->Immediate_0)))), true)
        } else {
            (SExpr::Add(Box::new(l), Box::new(r)), ch)
        }
    } else if l is Immediate && r is Add {
        if (*r->Add_1) is Immediate {
            (SExpr::Add(r->Add_0, Box::new(SExpr::Immediate(wadd((*r->Add_1)->Immediate_0, l->Immediate_0)))), true)
        } else {
            (SExpr::Add(Box::new(l), Box::new(r)), ch)
        }
    } else {
        (SExpr::Add(Box::new(l), Box::new(r)), ch)
    }
}

/// The simplification of `l - r` (operands already simplified): subtracting
/// zero, folding immediates, and `x - x` as zero.
pub open spec fn sub_rule(l: SExpr, r: SExpr, ch: bool) -> (SExpr, bool) {
    if is_imm_val(r, 0) {
        (l, true)
    } else if l is Immediate && r is Immediate {
        (SExpr::Immediate(wsub(l->Immediate_0, r->Immediate_0)), true)
    } else if same_leaf(l, r) {
        (SExpr::Immediate(0), true)
    } else {
        (SExpr::Sub(Box::new(l), Box::new(r)), ch)
    }
}

/// One bottom-up simplification pass over an expression, and whether it
/// changed anything.
pub open spec fn collapse(e: SExpr) -> (SExpr, bool)
    decreases e,
{
    match e {
        SExpr::Register(_) => (e, false),
        SExpr::Immediate(_) => (e, false),
        SExpr::Param(_) => (e, false),
        SExpr::Call(t, args) => {
            let (nt, ct) = collapse(*t);
            let (na, ca) = collapse_all(args);
            (SExpr::Call(Box::new(nt), na), ct || ca)
        },
        SExpr::Load(a) => {
            let (n, c) = collapse(*a);
            (SExpr::Load(Box::new(n)), c)
        },
        SExpr::Not(a) => {
            let (n, c) = collapse(*a);
            match n {
                SExpr::Not(v) => (*v, true),
                SExpr::Immediate(v) => (SExpr::Immediate(wsub(-1i16, v)), true),
                _ => (SExpr::Not(Box::new(n)), c),
            }
        },
        SExpr::Neg(a) => {
            let (n, c) = collapse(*a);
            match n {
                SExpr::Neg(v) => (*v, true),
                SExpr::Immediate(v) => (SExpr::Immediate(wsub(0, v)), true),
                _ => (SExpr::Neg(Box::new(n)), c),
            }
        },
        SExpr::And(a, b) => {
            let (l, cl) = collapse(*a);
            let (r, cr) = collapse(*b);
            and_rule(l, r, cl || cr)
        },
        SExpr::Add(a, b) => {
            let (l, cl) = collapse(*a);
            let (r, cr) = collapse(*b);
            add_rule(l, r, cl || cr)
        },
        SExpr::Sub(a, b) => {
            let (l, cl) = collapse(*a);
            let (r, cr) = collapse(*b);
            sub_rule(l, r, cl || cr)
        },
        SExpr::LogicalAnd(a, c1, b, c2) => {
            let (l, cl) = collapse(*a);
            let (r, cr) = collapse(*b);
            (SExpr::LogicalAnd(Box::new(l), c1, Box::new(r), c2), cl || cr)
        },
        SExpr::LogicalOr(a, c1, b, c2) => {
            let (l, cl) = collapse(*a);
            let (r, cr) = collapse(*b);
            (SExpr::LogicalOr(Box::new(l), c1, Box::new(r), c2), cl || cr)
        },
    }
}

/// One simplification pass over each expression of a sequence.
pub open spec fn collapse_all(s: Seq<SExpr>) -> (Seq<SExpr>, bool)
    decreases s,
{
    if s.len() == 0 {
        (Seq::empty(), false)
    } else {
        let (p, cp) = collapse_all(s.drop_last());
        let (x, cx) = collapse(s.last());
        (p.push(x), cp || cx)
    }
}

/// Simplifies an expression bottom-up once, returning the result and whether
/// anything changed.
pub fn collapse_expr(expr: Expr) -> (r: (Expr, bool))
    ensures
        (r.0@, r.1) == collapse(expr@),
    decreases expr,
{
    match expr {
        Expr::Register(x) => {
            assert(expr_view(Expr::Register(x)) == SExpr::Register(x));
            assert(collapse(SExpr::Register(x)) == (SExpr::Register(x), false));
            (Expr::Register(x), false)
        },
        Expr::Immediate(x) => {
            assert(collapse(SExpr::Immediate(x)) == (SExpr::Immediate(x), false));
            (Expr::Immediate(x), false)
        },
        Expr::Param(x) => {
            assert(collapse(SExpr::Param(x)) == (SExpr::Param(x), false));
            (Expr::Param(x), false)
        },
        Expr::Call(target, args) => {
            let (new_target, changed_target) = collapse_expr(*target);
            let (new_args, changed_args) = collapse_exprs(args);
            (Expr::Call(Box::new(new_target), new_args), changed_target || changed_args)
        },
        Expr::Load(inner) => {
            let (new_inner, changed) = collapse_expr(*inner);
            (Expr::Load(Box::new(new_inner)), changed)
        },
        Expr::Not(inner) => {
            let ghost iv = expr_view(*inner);
            let (new_inner, changed) = collapse_expr(*inner);
            assert(collapse(SExpr::Not(Box::new(iv))) == match new_inner@ {
                SExpr::Not(v) => (*v, true),
                SExpr::Immediate(v) => (SExpr::Immediate(wsub(-1i16, v)), true),
                _ => (SExpr::Not(Box::new(new_inner@)), changed),
            });
            match new_inner {
                Expr::Not(val) => {
                    assert(new_inner@ == SExpr::Not(Box::new(expr_view(*val))));
                    (*val, true)
                },
                Expr::Immediate(val) => {
                    let nv = (-1i16).wrapping_sub(val);
                    assert(expr_view(Expr::Immediate(nv)) == SExpr::Immediate(nv));
                    (Expr::Immediate(nv), true)
                },
                _ => (Expr::Not(Box::new(new_inner)), changed),
            }
        },
        Expr::Neg(inner) => {
            let ghost iv = expr_view(*inner);
            let (new_inner, changed) = collapse_expr(*inner);
            assert(collapse(SExpr::Neg(Box::new(iv))) == match new_inner@ {
                SExpr::Neg(v) => (*v, true),
                SExpr::Immediate(v) => (SExpr::Immediate(wsub(0, v)), true),
                _ => (SExpr::Neg(Box::new(new_inner@)), changed),
            });
            match new_inner {
                Expr::Neg(val) => {
                    assert(new_inner@ == SExpr::Neg(Box::new(expr_view(*val))));
                    (*val, true)
                },
                Expr::Immediate(val) => {
                    let nv = 0i16.wrapping_sub(val);
                    assert(expr_view(Expr::Immediate(nv)) == SExpr::Immediate(nv));
                    (Expr::Immediate(nv), true)
                },
                _ => (Expr::Neg(Box::new(new_inner)), changed),
            }
        },
        Expr::And(lhs, rhs) => {
            let (l, cl) = collapse_expr(*lhs);
            let (r, cr) = collapse_expr(*rhs);
            and_simplify(l, r, cl || cr)
        },
        Expr::Add(lhs, rhs) => {
            let (l, cl) = collapse_expr(*lhs);
            let (r, cr) = collapse_expr(*rhs);
            add_simplify(l, r, cl || cr)
        },
        Expr::Sub(lhs, rhs) => {
            let (l, cl) = collapse_expr(*lhs);
            let (r, cr) = collapse_expr(*rhs);
            sub_simplify(l, r, cl || cr)
        },
        Expr::LogicalAnd(lhs, lhs_cc, rhs, rhs_cc) => {
            let (l, cl) = collapse_expr(*lhs);
            let (r, cr) = collapse_expr(*rhs);
            (Expr::LogicalAnd(Box::new(l), lhs_cc, Box::new(r), rhs_cc), cl || cr)
        },
        Expr::LogicalOr(lhs, lhs_cc, rhs, rhs_cc) => {
            let (l, cl) = collapse_expr(*lhs);
            let (r, cr) = collapse_expr(*rhs);
            (Expr::LogicalOr(Box::new(l), lhs_cc, Box::new(r), rhs_cc), cl || cr)
        },
    }
}

/// Simplifies each expression of a vector once.
#[verifier::loop_isolation(false)]
pub fn collapse_exprs(args: Vec<Expr>) -> (r: (Vec<Expr>, bool))
    ensures
        (exprs_view(r.0@), r.1) == collapse_all(exprs_view(args@)),
    decreases args,
{
    let ghost orig = args@;
    let ghost orig_vec = args;
    let mut rest = args;
    let mut out: Vec<Expr> = Vec::new();
    let mut changed = false;
    let ghost n = orig.len();
    proof {
        lemma_exprs_view(orig);
    }
    while rest.len() > 0
        invariant
            rest@.len() + out@.len() == n,
            n == orig.len(),
            orig == orig_vec@,
            forall|j: int| 0 <= j < rest@.len() ==> #[trigger] rest@[j] == orig[(n - rest@.len()) + j],
            (exprs_view(out@), changed) == collapse_all(exprs_view(orig.subrange(0, out@.len() as int))),
        decreases rest@.len(),
    {
        let ghost k = out@.len();
        let ghost out0 = out@;
        let ghost ch0 = changed;
        let e = rest.remove(0);
        proof {
            assert(e == orig[k as int]);
            assert(decreases_to!(orig_vec => orig_vec[k as int]));
            assert(decreases_to!(orig_vec => e));
        }
        let (ne, c) = collapse_expr(e);
        out.push(ne);
        changed = changed || c;
        proof {
            let pre = orig.subrange(0, k as int + 1);
            assert(pre.drop_last() =~= orig.subrange(0, k as int));
            assert(pre.last() == orig[k as int]);
            let sv = exprs_view(pre);
            assert(sv == exprs_view(pre.drop_last()).push(expr_view(pre.last())));
            assert(sv.drop_last() =~= exprs_view(pre.drop_last()));
            assert(sv.last() == expr_view(orig[k as int]));
            assert(out@.drop_last() =~= out0);
            assert(exprs_view(out@) == exprs_view(out0).push(expr_view(ne)));
            assert(forall|j: int| 0 <= j < rest@.len() ==> #[trigger] rest@[j] == orig[(n - rest@.len()) + j]);
        }
    }
    proof {
        assert(orig.subrange(0, n as int) =~= orig);
    }
    (out, changed)
}

/// Computes `and_rule`.
fn and_simplify(l: Expr, r: Expr, ch: bool) -> (res: (Expr, bool))
    ensures
        (res.0@, res.1) == and_rule(l@, r@, ch),
{
    let l0 = match l { Expr::Immediate(0) => true, _ => false };
    let r0 = match r { Expr::Immediate(0) => true, _ => false };
    if l0 || r0 {
        return (Expr::Immediate(0), true);
    }
    if let Expr::Immediate(-1) = l {
        return (r, true);
    }
    if let Expr::Immediate(-1) = r {
        return (l, true);
    }
    if let (Expr::Immediate(a), Expr::Immediate(b)) = (&l, &r) {
        return (Expr::Immediate(*a & *b), true);
    }
    let equal = match (&l, &r) {
        (Expr::Register(r1), Expr::Register(r2)) => *r1 == *r2,
        (Expr::Immediate(i1), Expr::Immediate(i2)) => *i1 == *i2,
        _ => false,
    };
    if equal {
        (l, true)
    } else {
        (Expr::And(Box::new(l), Box::new(r)), ch)
    }
}

/// Computes `add_rule`.
fn add_simplify(l: Expr, r: Expr, ch: bool) -> (res: (Expr, bool))
    ensures
        (res.0@, res.1) == add_rule(l@, r@, ch),
{
    if let Expr::Immediate(0) = l {
        return (r, true);
    }
    if let Expr::Immediate(0) = r {
        return (l, true);
    }
    if let (Expr::Immediate(a), Expr::Immediate(b)) = (&l, &r) {
        return (Expr::Immediate(a.wrapping_add(*b)), true);
    }
    let r_is_one = match r { Expr::Immediate(1) => true, _ => false };
    let l_is_one = match l { Expr::Immediate(1) => true, _ => false };
    let l_is_not = match l { Expr::Not(_) => true, _ => false };
    let r_is_not = match r { Expr::Not(_) => true, _ => false };
    if l_is_not && r_is_one {
        if let Expr::Not(inner) = l {
            return (Expr::Neg(inner), true);
        }
    }
    if l_is_one && r_is_not {
        if let Expr::Not(inner) = r {
            return (Expr::Neg(inner), true);
        }
    }
    let r_is_neg = match r { Expr::Neg(_) => true, _ => false };
    if r_is_neg {
        if let Expr::Neg(b) = r {
            return (Expr::Sub(Box::new(l), b), true);
        }
    }
    let l_is_neg = match l { Expr::Neg(_) => true, _ => false };
    if l_is_neg {
        if let Expr::Neg(b) = l {
            return (Expr::Sub(Box::new(r), b), true);
        }
    }
    let ghost lv = l@;
    let ghost rv = r@;
    assert(!is_imm_val(lv, 0) && !is_imm_val(rv, 0) && !(lv is Immediate && rv is Immediate));
    assert(!(lv is Not && is_imm_val(rv, 1)) && !(is_imm_val(lv, 1) && rv is Not));
    assert(!(rv is Neg) && !(lv is Neg));
    match (l, r) {
        (Expr::Add(inner_lhs, inner_rhs), Expr::Immediate(y)) => {
            assert(lv == SExpr::Add(Box::new(expr_view(*inner_lhs)), Box::new(expr_view(*inner_rhs))));
            assert(rv == SExpr::Immediate(y));
            if let Expr::Immediate(x) = *inner_rhs {
                assert(expr_view(*inner_rhs) == SExpr::Immediate(x));
                let w = x.wrapping_add(y);
                assert(expr_view(Expr::Immediate(w)) == SExpr::Immediate(w));
                (Expr::Add(inner_lhs, Box::new(Expr::Immediate(w))), true)
            } else {
                let res = (Expr::Add(Box::new(Expr::Add(inner_lhs, inner_rhs)), Box::new(Expr::Immediate(y))), ch);
                assert(res.0@ == SExpr::Add(Box::new(lv), Box::new(rv)));
                res
            }
        },
        (Expr::Immediate(y), Expr::Add(inner_lhs, inner_rhs)) => {
            assert(rv == SExpr::Add(Box::new(expr_view(*inner_lhs)), Box::new(expr_view(*inner_rhs))));
            assert(lv == SExpr::Immediate(y));
            if let Expr::Immediate(x) = *inner_rhs {
                assert(expr_view(*inner_rhs) == SExpr::Immediate(x));
                let w = x.wrapping_add(y);
                assert(expr_view(Expr::Immediate(w)) == SExpr::Immediate(w));
                (Expr::Add(inner_lhs, Box::new(Expr::Immediate(w))), true)
            } else {
                let res = (Expr::Add(Box::new(Expr::Immediate(y)), Box::new(Expr::Add(inner_lhs, inner_rhs))), ch);
                assert(res.0@ == SExpr::Add(Box::new(lv), Box::new(rv)));
                res
            }
        },
        (lhs, rhs) => {
            assert(!(lv is Add && rv is Immediate) && !(lv is Immediate && rv is Add));
            (Expr::Add(Box::new(lhs), Box::new(rhs)), ch)
        },
    }
}

/// Computes `sub_rule`.
fn sub_simplify(l: Expr, r: Expr, ch: bool) -> (res: (Expr, bool))
    ensures
        (res.0@, res.1) == sub_rule(l@, r@, ch),
{
    if let Expr::Immediate(0) = r {
        return (l, true);
    }
    if let (Expr::Immediate(a), Expr::Immediate(b)) = (&l, &r) {
        return (Expr::Immediate(a.wrapping_sub(*b)), true);
    }
    let equal = match (&l, &r) {
        (Expr::Register(r1), Expr::Register(r2)) => *r1 == *r2,
        (Expr::Immediate(i1), Expr::Immediate(i2)) => *i1 == *i2,
        _ => false,
    };
    if equal {
        (Expr::Immediate(0), true)
    } else {
        (Expr::Sub(Box::new(l), Box::new(r)), ch)
    }
}


/// The number of nodes of an expression.
pub open spec fn esize(e: SExpr) -> nat
    decreases e,
{
    match e {
        SExpr::Register(_) => 1,
        SExpr::Immediate(_) => 1,
        SExpr::Param(_) => 1,
        SExpr::Add(a, b) => 1 + esize(*a) + esize(*b),
        SExpr::And(a, b) => 1 + esize(*a) + esize(*b),
        SExpr::Sub(a, b) => 1 + esize(*a) + esize(*b),
        SExpr::Not(a) => 1 + esize(*a),
        SExpr::Neg(a) => 1 + esize(*a),
        SExpr::Load(a) => 1 + esize(*a),
        SExpr::Call(t, args) => 1 + esize(*t) + esizes(args),
        SExpr::LogicalAnd(a, _, b, _) => 1 + esize(*a) + esize(*b),
        SExpr::LogicalOr(a, _, b, _) => 1 + esize(*a) + esize(*b),
    }
}

/// The number of nodes of a sequence of expressions.
pub open spec fn esizes(s: Seq<SExpr>) -> nat
    decreases s,
{
    if s.len() == 0 {
        0
    } else {
        esizes(s.drop_last()) + esize(s.last())
    }
}

/// A simplification pass that reports a change makes the expression strictly
/// smaller; one that reports none gives the expression back unchanged.
pub proof fn lemma_collapse_shrinks(e: SExpr)
    ensures
        collapse(e).1 ==> esize(collapse(e).0) < esize(e),
        !collapse(e).1 ==> collapse(e).0 == e,
    decreases e,
{
    match e {
        SExpr::Call(t, args) => {
            lemma_collapse_shrinks(*t);
            lemma_collapse_all_shrinks(args);
        },
        SExpr::Load(a) => {
            lemma_collapse_shrinks(*a);
        },
        SExpr::Not(a) => {
            lemma_collapse_shrinks(*a);
            let n = collapse(*a).0;
            if let SExpr::Not(v) = n {
                assert(esize(*v) < esize(n));
            }
        },
        SExpr::Neg(a) => {
            lemma_collapse_shrinks(*a);
            let n = collapse(*a).0;
            if let SExpr::Neg(v) = n {
                assert(esize(*v) < esize(n));
            }
        },
        SExpr::And(a, b) => {
            lemma_collapse_shrinks(*a);
            lemma_collapse_shrinks(*b);
        },
        SExpr::Add(a, b) => {
            lemma_collapse_shrinks(*a);
            lemma_collapse_shrinks(*b);
            let l = collapse(*a).0;
            let r = collapse(*b).0;
            if l is Not {
                assert(esize(l) == 1 + esize(*l->Not_0));
            }
            if r is Not {
                assert(esize(r) == 1 + esize(*r->Not_0));
            }
            if r is Neg {
                assert(esize(r) == 1 + esize(*r->Neg_0));
            }
            if l is Neg {
                assert(esize(l) == 1 + esize(*l->Neg_0));
            }
            assert forall|w: i16| #[trigger] esize(SExpr::Immediate(w)) == 1 by {}
            if l is Add {
                assert(esize(l) == 1 + esize(*l->Add_0) + esize(*l->Add_1));
                if (*l->Add_1) is Immediate {
                    assert(esize(*l->Add_1) == 1);
                }
            }
            if r is Add {
                assert(esize(r) == 1 + esize(*r->Add_0) + esize(*r->Add_1));
                if (*r->Add_1) is Immediate {
                    assert(esize(*r->Add_1) == 1);
                }
            }
            let ch = collapse(*a).1 || collapse(*b).1;
            assert(collapse(e) == add_rule(l, r, ch));
            assert(esize(e) == 1 + esize(*a) + esize(*b));
            assert(esize(l) <= esize(*a) && esize(r) <= esize(*b));
            let res = add_rule(l, r, ch);
            if is_imm_val(l, 0) {
            } else if is_imm_val(r, 0) {
            } else if l is Immediate && r is Immediate {
            } else if l is Not && is_imm_val(r, 1) {
                assert(esize(res.0) == 1 + esize(*l->Not_0));
            } else if is_imm_val(l, 1) && r is Not {
                assert(esize(res.0) == 1 + esize(*r->Not_0));
            } else if r is Neg {
                assert(esize(res.0) == 1 + esize(l) + esize(*r->Neg_0));
            } else if l is Neg {
                assert(esize(res.0) == 1 + esize(r) + esize(*l->Neg_0));
            } else if l is Add && r is Immediate {
                if (*l->Add_1) is Immediate {
                    let w = wadd((*l->Add_1)->Immediate_0, r->Immediate_0);
                    let im = SExpr::Immediate(w);
                    assert(esize(im) == 1);
                    assert(res.0 == SExpr::Add(l->Add_0, Box::new(im)));
                    assert(esize(res.0) == 1 + esize(*l->Add_0) + 1);
                }
            } else if l is Immediate && r is Add {
                if (*r->Add_1) is Immediate {
                    let w = wadd((*r->Add_1)->Immediate_0, l->Immediate_0);
                    let im = SExpr::Immediate(w);
                    assert(esize(im) == 1);
                    assert(res.0 == SExpr::Add(r->Add_0, Box::new(im)));
                    assert(esize(res.0) == 1 + esize(*r->Add_0) + 1);
                }
            }
        },
        SExpr::Sub(a, b) => {
            lemma_collapse_shrinks(*a);
            lemma_collapse_shrinks(*b);
        },
        SExpr::LogicalAnd(a, _, b, _) => {
            lemma_collapse_shrinks(*a);
            lemma_collapse_shrinks(*b);
        },
        SExpr::LogicalOr(a, _, b, _) => {
            lemma_collapse_shrinks(*a);
            lemma_collapse_shrinks(*b);
        },
        _ => {},
    }
}

/// `lemma_collapse_shrinks` for each expression of a sequence.
pub proof fn lemma_collapse_all_shrinks(s: Seq<SExpr>)
    ensures
        collapse_all(s).0.len() == s.len(),
        collapse_all(s).1 ==> esizes(collapse_all(s).0) < esizes(s),
        !collapse_all(s).1 ==> collapse_all(s).0 == s,
    decreases s,
{
    if s.len() > 0 {
        lemma_collapse_all_shrinks(s.drop_last());
        lemma_collapse_shrinks(s.last());
        let (p, cp) = collapse_all(s.drop_last());
        let (x, cx) = collapse(s.last());
        assert(p.push(x).drop_last() =~= p);
        assert(p.push(x).last() == x);
        if !cp && !cx {
            assert(p.push(x) =~= s);
        }
    }
}


/// One simplification pass over the expressions of a statement kind (the
/// right-hand side of an assignment, both sides of a store, the condition of
/// a conditional goto), and whether it changed anything.
pub open spec fn collapse_kind(k: SKind) -> (SKind, bool) {
    match k {
        SKind::Assign(r, e) => (SKind::Assign(r, collapse(e).0), collapse(e).1),
        SKind::Store(a, v) => (SKind::Store(collapse(a).0, collapse(v).0), collapse(a).1 || collapse(v).1),
        SKind::Goto(Some(c), cc, t) => (SKind::Goto(Some(collapse(c).0), cc, t), collapse(c).1),
        _ => (k, false),
    }
}

/// The size of the expressions that `collapse_kind` simplifies.
pub open spec fn ksize(k: SKind) -> nat {
    match k {
        SKind::Assign(_, e) => esize(e),
        SKind::Store(a, v) => esize(a) + esize(v),
        SKind::Goto(Some(c), _, _) => esize(c),
        _ => 0,
    }
}

pub proof fn lemma_collapse_kind(k: SKind)
    ensures
        collapse_kind(k).1 ==> ksize(collapse_kind(k).0) < ksize(k),
        !collapse_kind(k).1 ==> collapse_kind(k).0 == k,
{
    match k {
        SKind::Assign(_, e) => lemma_collapse_shrinks(e),
        SKind::Store(a, v) => {
            lemma_collapse_shrinks(a);
            lemma_collapse_shrinks(v);
        },
        SKind::Goto(Some(c), _, _) => lemma_collapse_shrinks(c),
        _ => {},
    }
}

/// Simplifies the expressions of one statement once; reports whether anything
/// changed.
pub fn collapse_stmt(stmt: &mut IRStmt) -> (changed: bool)
    ensures
        final(stmt)@ == (SStmt { addr: old(stmt)@.addr, kind: collapse_kind(old(stmt)@.kind).0 }),
        changed == collapse_kind(old(stmt)@.kind).1,
{
    let ghost k = old(stmt)@.kind;
    proof {
        lemma_collapse_kind(k);
    }
    match &stmt.kind {
        IRStmtKind::Assign(r, e) => {
            let reg = *r;
            let (new_expr, changed) = collapse_expr(e.duplicate());
            if changed {
                stmt.kind = IRStmtKind::Assign(reg, new_expr);
            }
            changed
        },
        IRStmtKind::Store(a, v) => {
            let (new_addr, changed_addr) = collapse_expr(a.duplicate());
            let (new_val, changed_val) = collapse_expr(v.duplicate());
            if changed_addr || changed_val {
                stmt.kind = IRStmtKind::Store(new_addr, new_val);
            }
            changed_addr || changed_val
        },
        IRStmtKind::Goto(Some(c), cc, t) => {
            let cc = *cc;
            let t = *t;
            let (new_cond, changed) = collapse_expr(c.duplicate());
            if changed {
                stmt.kind = IRStmtKind::Goto(Some(new_cond), cc, t);
            }
            changed
        },
        _ => false,
    }
}

/// One simplification pass over each statement of a sequence.
pub open spec fn collapse_seq(s: Seq<SStmt>) -> Seq<SStmt> {
    Seq::new(s.len(), |i: int| SStmt { addr: s[i].addr, kind: collapse_kind(s[i].kind).0 })
}

/// Whether the pass changes some statement of the sequence.
pub open spec fn seq_changes(s: Seq<SStmt>) -> bool {
    exists|i: int| 0 <= i < s.len() && #[trigger] collapse_kind(s[i].kind).1
}

/// One simplification pass over each block.
pub open spec fn collapse_blocks_once(b: Seq<(u16, Seq<SStmt>)>) -> Seq<(u16, Seq<SStmt>)> {
    Seq::new(b.len(), |i: int| (b[i].0, collapse_seq(b[i].1)))
}

/// Whether the pass changes some statement of some block.
pub open spec fn blocks_change(b: Seq<(u16, Seq<SStmt>)>) -> bool {
    exists|i: int| 0 <= i < b.len() && #[trigger] seq_changes(b[i].1)
}

/// The total size of the simplifiable expressions of a sequence.
pub open spec fn seq_size(s: Seq<SStmt>) -> nat
    decreases s.len(),
{
    if s.len() == 0 {
        0
    } else {
        seq_size(s.drop_last()) + ksize(s.last().kind)
    }
}

/// The total size of the simplifiable expressions of the blocks.
pub open spec fn blocks_size(b: Seq<(u16, Seq<SStmt>)>) -> nat
    decreases b.len(),
{
    if b.len() == 0 {
        0
    } else {
        blocks_size(b.drop_last()) + seq_size(b.last().1)
    }
}

pub proof fn lemma_collapse_seq(s: Seq<SStmt>)
    ensures
        seq_size(collapse_seq(s)) <= seq_size(s),
        seq_changes(s) ==> seq_size(collapse_seq(s)) < seq_size(s),
        !seq_changes(s) ==> collapse_seq(s) == s,
    decreases s.len(),
{
    if s.len() > 0 {
        let p = s.drop_last();
        lemma_collapse_seq(p);
        lemma_collapse_kind(s.last().kind);
        assert(collapse_seq(s).drop_last() =~= collapse_seq(p));
        if seq_changes(s) {
            let i = choose|i: int| 0 <= i < s.len() && #[trigger] collapse_kind(s[i].kind).1;
            if i < s.len() - 1 {
                assert(collapse_kind(p[i].kind).1);
            }
        }
        if !seq_changes(s) {
            assert forall|i: int| 0 <= i < p.len() implies !#[trigger] collapse_kind(p[i].kind).1 by {
                assert(p[i] == s[i]);
            }
            assert forall|i: int| 0 <= i < s.len() implies #[trigger] collapse_seq(s)[i] == s[i] by {
                lemma_collapse_kind(s[i].kind);
            }
            assert(collapse_seq(s) =~= s);
        }
    }
}

pub proof fn lemma_collapse_blocks_once(b: Seq<(u16, Seq<SStmt>)>)
    ensures
        blocks_change(b) ==> blocks_size(collapse_blocks_once(b)) < blocks_size(b),
        !blocks_change(b) ==> collapse_blocks_once(b) == b,
        blocks_size(collapse_blocks_once(b)) <= blocks_size(b),
    decreases b.len(),
{
    if b.len() > 0 {
        let p = b.drop_last();
        lemma_collapse_blocks_once(p);
        lemma_collapse_seq(b.last().1);
        assert(collapse_blocks_once(b).drop_last() =~= collapse_blocks_once(p));
        if blocks_change(b) {
            let i = choose|i: int| 0 <= i < b.len() && #[trigger] seq_changes(b[i].1);
            if i < b.len() - 1 {
                assert(seq_changes(p[i].1));
            }
        }
        if !blocks_change(b) {
            assert forall|i: int| 0 <= i < p.len() implies !#[trigger] seq_changes(p[i].1) by {
                assert(p[i] == b[i]);
            }
            assert forall|i: int| 0 <= i < b.len() implies #[trigger] collapse_blocks_once(b)[i] == b[i] by {
                lemma_collapse_seq(b[i].1);
            }
            assert(collapse_blocks_once(b) =~= b);
        }
    }
}

/// Simplification passes over all blocks until one changes nothing.
pub open spec fn collapse_fix(b: Seq<(u16, Seq<SStmt>)>) -> Seq<(u16, Seq<SStmt>)>
    decreases blocks_size(b),
{
    if blocks_change(b) {
        proof {
            lemma_collapse_blocks_once(b);
        }
        collapse_fix(collapse_blocks_once(b))
    } else {
        b
    }
}

/// One simplification pass over a vector of statements; reports whether
/// anything changed.
fn collapse_vec(v: &mut Vec<IRStmt>) -> (changed: bool)
    ensures
        stmts_view(final(v)@) == collapse_seq(stmts_view(old(v)@)),
        changed == seq_changes(stmts_view(old(v)@)),
{
    let ghost s0 = stmts_view(old(v)@);
    proof {
        lemma_stmts_view(old(v)@);
    }
    let mut changed = false;
    let mut j: usize = 0;
    while j < v.len()
        invariant
            j <= v@.len(),
            v@.len() == s0.len(),
            s0 == stmts_view(old(v)@),
            forall|k: int| 0 <= k < j ==> #[trigger] stmt_view(v@[k]) == collapse_seq(s0)[k],
            forall|k: int| j <= k < v@.len() ==> #[trigger] stmt_view(v@[k]) == s0[k],
            changed == exists|k: int| 0 <= k < j && #[trigger] collapse_kind(s0[k].kind).1,
        decreases v@.len() - j,
    {
        let mut st = v[j].duplicate();
        let c = collapse_stmt(&mut st);
        v.set(j, st);
        changed = changed || c;
        j = j + 1;
    }
    proof {
        lemma_stmts_view(v@);
        assert(stmts_view(v@) =~= collapse_seq(s0));
    }
    changed
}

/// One simplification pass over every block; reports whether anything
/// changed.
fn collapse_pass(blocks: &mut AddrMap<Vec<IRStmt>>) -> (changed: bool)
    ensures
        blocks_view(final(blocks).entries@) == collapse_blocks_once(blocks_view(old(blocks).entries@)),
        changed == blocks_change(blocks_view(old(blocks).entries@)),
        final(blocks).key_seq() == old(blocks).key_seq(),
{
    let ghost b0 = blocks_view(old(blocks).entries@);
    proof {
        lemma_blocks_view(old(blocks).entries@);
    }
    let mut entries: Vec<(u16, Vec<IRStmt>)> = Vec::new();
    let mut changed = false;
    let mut i: usize = 0;
    while i < blocks.entries.len()
        invariant
            i <= blocks.entries@.len(),
            entries@.len() == i,
            b0 == blocks_view(blocks.entries@),
            b0.len() == blocks.entries@.len(),
            forall|k: int| 0 <= k < i ==> #[trigger] entries@[k].0 == blocks.entries@[k].0,
            forall|k: int| 0 <= k < i ==> stmts_view(#[trigger] entries@[k].1@) == collapse_seq(b0[k].1),
            changed == exists|k: int| 0 <= k < i && #[trigger] seq_changes(b0[k].1),
        decreases blocks.entries@.len() - i,
    {
        let k = blocks.entries[i].0;
        let mut v = duplicate_stmts(&blocks.entries[i].1);
        let c = collapse_vec(&mut v);
        let ghost e0 = entries@;
        let ghost ch0 = changed;
        entries.push((k, v));
        changed = changed || c;
        proof {
            lemma_blocks_view(blocks.entries@);
            assert(b0[i as int].1 == stmts_view(blocks.entries@[i as int].1@));
            assert(entries@[i as int].1 == v);
            assert forall|q: int| 0 <= q < i + 1 implies stmts_view(#[trigger] entries@[q].1@) == collapse_seq(b0[q].1) by {
                if q < i {
                    assert(entries@[q] == e0[q]);
                }
            }
            if c {
                assert(seq_changes(b0[i as int].1));
            } else if ch0 {
                let w = choose|q: int| 0 <= q < i && #[trigger] seq_changes(b0[q].1);
                assert(0 <= w < i + 1 && seq_changes(b0[w].1));
            } else {
                assert forall|q: int| 0 <= q < i + 1 implies !#[trigger] seq_changes(b0[q].1) by {
                    if q < i {
                    }
                }
            }
        }
        i = i + 1;
    }
    let ghost old_keys = blocks.key_seq();
    blocks.entries = entries;
    proof {
        lemma_blocks_view(blocks.entries@);
        assert(blocks_view(blocks.entries@) =~= collapse_blocks_once(b0));
        assert(blocks.key_seq() =~= old_keys);
    }
    changed
}

/// Simplifies the expressions of all statements until a pass changes nothing.
pub fn collapse_expressions(blocks: AddrMap<Vec<IRStmt>>) -> (r: AddrMap<Vec<IRStmt>>)
    ensures
        blocks_view(r.entries@) == collapse_fix(blocks_view(blocks.entries@)),
        r.key_seq() == blocks.key_seq(),
{
    let mut blocks = blocks;
    let ghost target = collapse_fix(blocks_view(blocks.entries@));
    let ghost keys = blocks.key_seq();
    loop
        invariant_except_break
            collapse_fix(blocks_view(blocks.entries@)) == target,
            blocks.key_seq() == keys,
        ensures
            blocks_view(blocks.entries@) == target,
            blocks.key_seq() == keys,
        decreases blocks_size(blocks_view(blocks.entries@)),
    {
        let ghost before = blocks_view(blocks.entries@);
        proof {
            lemma_collapse_blocks_once(before);
        }
        let changed = collapse_pass(&mut blocks);
        if !changed {
            break;
        }
    }
    blocks
}

} // verus!
