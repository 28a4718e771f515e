use vstd::prelude::*;
use vstd::string::StringExecFns;
use crate::addr_map::AddrMap;
use crate::codegen::{dec_nat, dec_string, hex4, hex4_string, hex_nat, hex_string, lit};
use crate::ir::{
    Expr, IRStmt, IRStmtKind, SExpr, SKind, SStmt, blocks_view, exprs_view, kind_view, lemma_blocks_view,
    lemma_exprs_view, lemma_stmts_view, opt_view, stmts_view,
};
use crate::linear::{LinearStmt, SLin, lemma_lins_view, lin_view, lins_view};

verus! {

/// The debugging text of an expression: each variant by name with its
/// operands; immediates and condition codes in hexadecimal.
pub open spec fn dbg_expr(e: SExpr) -> Seq<char>
    decreases e, 1int,
{
    match e {
        SExpr::Register(r) => "Register("@ + dec_nat(r as nat) + ")"@,
        SExpr::Immediate(v) => "Immediate(0x"@ + hex_nat((v as u16) as nat) + ")"@,
        SExpr::Add(l, r) => "Add("@ + dbg_expr(*l) + ", "@ + dbg_expr(*r) + ")"@,
        SExpr::And(l, r) => "And("@ + dbg_expr(*l) + ", "@ + dbg_expr(*r) + ")"@,
        SExpr::Not(x) => "Not("@ + dbg_expr(*x) + ")"@,
        SExpr::Neg(x) => "Neg("@ + dbg_expr(*x) + ")"@,
        SExpr::Sub(l, r) => "Sub("@ + dbg_expr(*l) + ", "@ + dbg_expr(*r) + ")"@,
        SExpr::Load(x) => "Load("@ + dbg_expr(*x) + ")"@,
        SExpr::Param(i) => "Param("@ + dec_nat(i as nat) + ")"@,
        SExpr::Call(t, args) => "CallExpr("@ + dbg_expr(*t) + dbg_args(args) + ")"@,
        SExpr::LogicalAnd(l, c1, r, c2) => "LogicalAnd("@ + dbg_expr(*l) + ", 0x"@ + hex_nat(c1 as nat) + ", "@
            + dbg_expr(*r) + ", 0x"@ + hex_nat(c2 as nat) + ")"@,
        SExpr::LogicalOr(l, c1, r, c2) => "LogicalOr("@ + dbg_expr(*l) + ", 0x"@ + hex_nat(c1 as nat) + ", "@
            + dbg_expr(*r) + ", 0x"@ + hex_nat(c2 as nat) + ")"@,
    }
}

/// The debugging texts of expressions, each after a comma.
pub open spec fn dbg_args(s: Seq<SExpr>) -> Seq<char>
    decreases s, 0int,
{
    if s.len() == 0 {
        Seq::empty()
    } else {
        dbg_args(s.drop_last()) + ", "@ + dbg_expr(s[s.len() - 1])
    }
}

/// The debugging text of an optional expression.
pub open spec fn dbg_opt(o: Option<SExpr>) -> Seq<char> {
    match o {
        Some(e) => "Some("@ + dbg_expr(e) + ")"@,
        None => "None"@,
    }
}

/// The debugging text of a statement kind; loop bodies list their blocks in
/// address order.
pub open spec fn dbg_kind(k: SKind) -> Seq<char>
    decreases k, 1int,
{
    match k {
        SKind::Assign(reg, e) => "Assign("@ + dec_nat(reg as nat) + ", "@ + dbg_expr(e) + ")"@,
        SKind::Store(a, v) => "Store("@ + dbg_expr(a) + ", "@ + dbg_expr(v) + ")"@,
        SKind::Goto(e, cc, t) => "Goto("@ + dbg_opt(e) + ", 0x"@ + hex_nat(cc as nat) + ", 0x"@ + hex_nat(t as nat) + ")"@,
        SKind::Call(t, args) => "Call("@ + dbg_expr(t) + dbg_args(args) + ")"@,
        SKind::Return(v) => match v {
            Some(e) => "Return("@ + dbg_expr(e) + ")"@,
            None => "Return"@,
        },
        SKind::Trap(v) => "Trap(0x"@ + hex_nat(v as nat) + ")"@,
        SKind::DoWhile(c, cc, b) => "DoWhile("@ + dbg_opt(c) + ", 0x"@ + hex_nat(cc as nat) + ", {"@ + dbg_blocks(b)
            + "\n})"@,
        SKind::While(c, cc, b) => "While("@ + dbg_opt(c) + ", 0x"@ + hex_nat(cc as nat) + ", {"@ + dbg_blocks(b)
            + "\n})"@,
        SKind::For(i, c, cc, n, b) => "For("@ + dbg_kind(i.kind) + ", "@ + dbg_opt(c) + ", 0x"@ + hex_nat(cc as nat)
            + ", "@ + dbg_kind(n.kind) + ", {"@ + dbg_blocks(b) + "\n})"@,
        SKind::If(c, cc, t, f) => "If("@ + dbg_opt(c) + ", 0x"@ + hex_nat(cc as nat) + ", {"@ + dbg_kinds(t) + "\n  }"@
            + match f {
            Some(fs) => " else {"@ + dbg_kinds(fs) + "\n  }"@,
            None => Seq::empty(),
        } + ")"@,
        SKind::Break => "Break"@,
        SKind::Continue => "Continue"@,
    }
}

/// The debugging texts of the kinds of statements, each on a line of its own.
pub open spec fn dbg_kinds(ss: Seq<SStmt>) -> Seq<char>
    decreases ss, 0int,
{
    if ss.len() == 0 {
        Seq::empty()
    } else {
        dbg_kinds(ss.drop_last()) + "\n    "@ + dbg_kind(ss[ss.len() - 1].kind)
    }
}

/// The debugging text of the blocks of a loop body.
pub open spec fn dbg_blocks(b: Seq<(u16, Seq<SStmt>)>) -> Seq<char>
    decreases b, 0int,
{
    if b.len() == 0 {
        Seq::empty()
    } else {
        dbg_blocks(b.drop_last()) + "\n  Block "@ + hex4(b[b.len() - 1].0) + ":"@ + dbg_kinds(b[b.len() - 1].1)
    }
}

/// The debugging text of a linear statement.
pub open spec fn dbg_lin(l: SLin) -> Seq<char>
    decreases l, 1int,
{
    match l {
        SLin::Assign(reg, e) => "Assign("@ + dec_nat(reg as nat) + ", "@ + dbg_expr(e) + ")"@,
        SLin::Store(a, v) => "Store("@ + dbg_expr(a) + ", "@ + dbg_expr(v) + ")"@,
        SLin::Goto(e, cc, t) => "Goto("@ + dbg_opt(e) + ", 0x"@ + hex_nat(cc as nat) + ", 0x"@ + hex_nat(t as nat) + ")"@,
        SLin::Call(t, args) => "Call("@ + dbg_expr(t) + dbg_args(args) + ")"@,
        SLin::Return(v) => match v {
            Some(e) => "Return("@ + dbg_expr(e) + ")"@,
            None => "Return"@,
        },
        SLin::Trap(v) => "Trap(0x"@ + hex_nat(v as nat) + ")"@,
        SLin::IndirectGoto(t) => "IndirectGoto("@ + dbg_expr(t) + ")"@,
        SLin::DoWhile(c, cc, b) => "DoWhile("@ + dbg_opt(c) + ", 0x"@ + hex_nat(cc as nat) + ", {"@ + dbg_lins(b)
            + "\n})"@,
        SLin::While(c, cc, b) => "While("@ + dbg_opt(c) + ", 0x"@ + hex_nat(cc as nat) + ", {"@ + dbg_lins(b) + "\n})"@,
        SLin::For(i, c, cc, n, b) => "For("@ + dbg_lin(*i) + ", "@ + dbg_opt(c) + ", 0x"@ + hex_nat(cc as nat) + ", "@
            + dbg_lin(*n) + ", {"@ + dbg_lins(b) + "\n})"@,
        SLin::If(c, cc, t, f) => "If("@ + dbg_opt(c) + ", 0x"@ + hex_nat(cc as nat) + ", {"@ + dbg_lins(t) + "\n  }"@
            + match f {
            Some(fs) => " else {"@ + dbg_lins(fs) + "\n  }"@,
            None => Seq::empty(),
        } + ")"@,
        SLin::Break => "Break"@,
        SLin::Continue => "Continue"@,
        SLin::Label(a) => "Label(0x"@ + hex_nat(a as nat) + ")"@,
    }
}

/// The debugging texts of linear statements, each on a line of its own.
pub open spec fn dbg_lins(ss: Seq<SLin>) -> Seq<char>
    decreases ss, 0int,
{
    if ss.len() == 0 {
        Seq::empty()
    } else {
        dbg_lins(ss.drop_last()) + "\n    "@ + dbg_lin(ss[ss.len() - 1])
    }
}

/// Appends `t` to `s`.
fn push_text(s: &mut String, t: &String)
    ensures
        final(s)@ == old(s)@ + t@,
{
    s.append(t.as_str());
}

/// Computes `dbg_args`.
fn dbg_args_text(args: &Vec<Expr>) -> (r: String)
    ensures
        r@ == dbg_args(exprs_view(args@)),
    decreases args, 0int,
{
    let ghost sv = exprs_view(args@);
    proof {
        lemma_exprs_view(args@);
    }
    let mut out = String::new();
    let mut i: usize = 0;
    while i < args.len()
        invariant
            i <= args@.len(),
            sv == exprs_view(args@),
            sv.len() == args@.len(),
            forall|q: int| 0 <= q < args@.len() ==> #[trigger] sv[q] == args@[q]@,
            out@ == dbg_args(sv.subrange(0, i as int)),
        decreases args@.len() - i,
    {
        proof {
            assert(decreases_to!(args => args[i as int]));
        }
        let x = args[i].debug_text();
        out.append(", ");
        push_text(&mut out, &x);
        proof {
            let t = sv.subrange(0, i + 1);
            assert(t.drop_last() =~= sv.subrange(0, i as int));
            assert(t[t.len() - 1] == sv[i as int]);
        }
        i = i + 1;
    }
    proof {
        assert(sv.subrange(0, i as int) =~= sv);
    }
    out
}

/// Computes `dbg_opt`.
fn dbg_opt_text(o: &Option<Expr>) -> (r: String)
    ensures
        r@ == dbg_opt(opt_view(*o)),
{
    match o {
        Some(e) => {
            let mut s = lit("Some(");
            let t = e.debug_text();
            push_text(&mut s, &t);
            s.append(")");
            s
        },
        None => lit("None"),
    }
}

impl Expr {
    /// The debugging text of the expression (see `dbg_expr`).
    pub fn debug_text(&self) -> (r: String)
        ensures
            r@ == dbg_expr(self@),
        decreases self, 1int,
    {
        let mut s = String::new();
        match self {
            Expr::Register(r) => {
                s.append("Register(");
                push_text(&mut s, &dec_string(*r as u32));
            },
            Expr::Immediate(v) => {
                s.append("Immediate(0x");
                let u = *v as u16;
                push_text(&mut s, &hex_string(u as u32));
            },
            Expr::Add(l, r) => {
                s.append("Add(");
                push_text(&mut s, &l.debug_text());
                s.append(", ");
                push_text(&mut s, &r.debug_text());
            },
            Expr::And(l, r) => {
                s.append("And(");
                push_text(&mut s, &l.debug_text());
                s.append(", ");
                push_text(&mut s, &r.debug_text());
            },
            Expr::Not(x) => {
                s.append("Not(");
                push_text(&mut s, &x.debug_text());
            },
            Expr::Neg(x) => {
                s.append("Neg(");
                push_text(&mut s, &x.debug_text());
            },
            Expr::Sub(l, r) => {
                s.append("Sub(");
                push_text(&mut s, &l.debug_text());
                s.append(", ");
                push_text(&mut s, &r.debug_text());
            },
            Expr::Load(x) => {
                s.append("Load(");
                push_text(&mut s, &x.debug_text());
            },
            Expr::Param(i) => {
                s.append("Param(");
                push_text(&mut s, &dec_string(*i as u32));
            },
            Expr::Call(t, args) => {
                s.append("CallExpr(");
                push_text(&mut s, &t.debug_text());
                push_text(&mut s, &dbg_args_text(args));
            },
            Expr::LogicalAnd(l, c1, r, c2) => {
                s.append("LogicalAnd(");
                push_text(&mut s, &l.debug_text());
                s.append(", 0x");
                push_text(&mut s, &hex_string(*c1 as u32));
                s.append(", ");
                push_text(&mut s, &r.debug_text());
                s.append(", 0x");
                push_text(&mut s, &hex_string(*c2 as u32));
            },
            Expr::LogicalOr(l, c1, r, c2) => {
                s.append("LogicalOr(");
                push_text(&mut s, &l.debug_text());
                s.append(", 0x");
                push_text(&mut s, &hex_string(*c1 as u32));
                s.append(", ");
                push_text(&mut s, &r.debug_text());
                s.append(", 0x");
                push_text(&mut s, &hex_string(*c2 as u32));
            },
        }
        s.append(")");
        s
    }
}

/// Computes `dbg_kinds`.
fn dbg_kinds_text(v: &Vec<IRStmt>) -> (r: String)
    ensures
        r@ == dbg_kinds(stmts_view(v@)),
    decreases v, 0int,
{
    let ghost sv = stmts_view(v@);
    proof {
        lemma_stmts_view(v@);
    }
    let mut out = String::new();
    let mut i: usize = 0;
    while i < v.len()
        invariant
            i <= v@.len(),
            sv == stmts_view(v@),
            sv.len() == v@.len(),
            forall|q: int| 0 <= q < v@.len() ==> #[trigger] sv[q] == v@[q]@,
            out@ == dbg_kinds(sv.subrange(0, i as int)),
        decreases v@.len() - i,
    {
        proof {
            assert(decreases_to!(v => v[i as int]));
            assert(decreases_to!(v[i as int] => v[i as int].kind));
        }
        let x = v[i].kind.debug_text();
        out.append("\n    ");
        push_text(&mut out, &x);
        proof {
            let t = sv.subrange(0, i + 1);
            assert(t.drop_last() =~= sv.subrange(0, i as int));
            assert(t[t.len() - 1] == sv[i as int]);
        }
        i = i + 1;
    }
    proof {
        assert(sv.subrange(0, i as int) =~= sv);
    }
    out
}

/// Computes `dbg_blocks`.
fn dbg_blocks_text(m: &AddrMap<Vec<IRStmt>>) -> (r: String)
    ensures
        r@ == dbg_blocks(blocks_view(m.entries@)),
    decreases m, 0int,
{
    let ghost sv = blocks_view(m.entries@);
    proof {
        lemma_blocks_view(m.entries@);
    }
    let mut out = String::new();
    let mut i: usize = 0;
    while i < m.entries.len()
        invariant
            i <= m.entries@.len(),
            sv == blocks_view(m.entries@),
            sv.len() == m.entries@.len(),
            forall|q: int| 0 <= q < m.entries@.len() ==> #[trigger] sv[q] == (m.entries@[q].0, stmts_view(
                m.entries@[q].1@,
            )),
            out@ == dbg_blocks(sv.subrange(0, i as int)),
        decreases m.entries@.len() - i,
    {
        proof {
            assert(decreases_to!(m => m.entries));
            assert(decreases_to!(m.entries => m.entries[i as int]));
            assert(decreases_to!(m.entries[i as int] => m.entries[i as int].1));
        }
        out.append("\n  Block ");
        push_text(&mut out, &hex4_string(m.entries[i].0));
        out.append(":");
        let x = dbg_kinds_text(&m.entries[i].1);
        push_text(&mut out, &x);
        proof {
            let t = sv.subrange(0, i + 1);
            assert(t.drop_last() =~= sv.subrange(0, i as int));
            assert(t[t.len() - 1] == sv[i as int]);
        }
        i = i + 1;
    }
    proof {
        assert(sv.subrange(0, i as int) =~= sv);
    }
    out
}

impl IRStmtKind {
    /// The debugging text of the statement kind (see `dbg_kind`).
    pub fn debug_text(&self) -> (r: String)
        ensures
            r@ == dbg_kind(kind_view(*self)),
        decreases self, 1int,
    {
        let mut s = String::new();
        match self {
            IRStmtKind::Assign(reg, e) => {
                s.append("Assign(");
                push_text(&mut s, &dec_string(*reg as u32));
                s.append(", ");
                push_text(&mut s, &e.debug_text());
                s.append(")");
            },
            IRStmtKind::Store(a, v) => {
                s.append("Store(");
                push_text(&mut s, &a.debug_text());
                s.append(", ");
                push_text(&mut s, &v.debug_text());
                s.append(")");
            },
            IRStmtKind::Goto(e, cc, t) => {
                s.append("Goto(");
                push_text(&mut s, &dbg_opt_text(e));
                s.append(", 0x");
                push_text(&mut s, &hex_string(*cc as u32));
                s.append(", 0x");
                push_text(&mut s, &hex_string(*t as u32));
                s.append(")");
            },
            IRStmtKind::Call(t, args) => {
                s.append("Call(");
                push_text(&mut s, &t.debug_text());
                push_text(&mut s, &dbg_args_text(args));
                s.append(")");
            },
            IRStmtKind::Return(v) => match v {
                Some(e) => {
                    s.append("Return(");
                    push_text(&mut s, &e.debug_text());
                    s.append(")");
                },
                None => {
                    s.append("Return");
                },
            },
            IRStmtKind::Trap(v) => {
                s.append("Trap(0x");
                push_text(&mut s, &hex_string(*v as u32));
                s.append(")");
            },
            IRStmtKind::DoWhile(c, cc, b) => {
                s.append("DoWhile(");
                push_text(&mut s, &dbg_opt_text(c));
                s.append(", 0x");
                push_text(&mut s, &hex_string(*cc as u32));
                s.append(", {");
                push_text(&mut s, &dbg_blocks_text(b));
                s.append("\n})");
            },
            IRStmtKind::While(c, cc, b) => {
                s.append("While(");
                push_text(&mut s, &dbg_opt_text(c));
                s.append(", 0x");
                push_text(&mut s, &hex_string(*cc as u32));
                s.append(", {");
                push_text(&mut s, &dbg_blocks_text(b));
                s.append("\n})");
            },
            IRStmtKind::For(i, c, cc, n, b) => {
                proof {
                    assert(decreases_to!(self => i));
                    assert(decreases_to!(i => i.kind));
                    assert(decreases_to!(self => n));
                    assert(decreases_to!(n => n.kind));
                }
                s.append("For(");
                push_text(&mut s, &i.kind.debug_text());
                s.append(", ");
                push_text(&mut s, &dbg_opt_text(c));
                s.append(", 0x");
                push_text(&mut s, &hex_string(*cc as u32));
                s.append(", ");
                push_text(&mut s, &n.kind.debug_text());
                s.append(", {");
                push_text(&mut s, &dbg_blocks_text(b));
                s.append("\n})");
            },
            IRStmtKind::If(c, cc, t, f) => {
                s.append("If(");
                push_text(&mut s, &dbg_opt_text(c));
                s.append(", 0x");
                push_text(&mut s, &hex_string(*cc as u32));
                s.append(", {");
                push_text(&mut s, &dbg_kinds_text(t));
                s.append("\n  }");
                match f {
                    Some(fs) => {
                        s.append(" else {");
                        push_text(&mut s, &dbg_kinds_text(fs));
                        s.append("\n  }");
                    },
                    None => {},
                }
                s.append(")");
            },
            IRStmtKind::Break => {
                s.append("Break");
            },
            IRStmtKind::Continue => {
                s.append("Continue");
            },
        }
        s
    }
}

/// Computes `dbg_lins`.
fn dbg_lins_text(v: &Vec<LinearStmt>) -> (r: String)
    ensures
        r@ == dbg_lins(lins_view(v@)),
    decreases v, 0int,
{
    let ghost sv = lins_view(v@);
    proof {
        lemma_lins_view(v@);
    }
    let mut out = String::new();
    let mut i: usize = 0;
    while i < v.len()
        invariant
            i <= v@.len(),
            sv == lins_view(v@),
            sv.len() == v@.len(),
            forall|q: int| 0 <= q < v@.len() ==> #[trigger] sv[q] == lin_view(v@[q]),
            out@ == dbg_lins(sv.subrange(0, i as int)),
        decreases v@.len() - i,
    {
        proof {
            assert(decreases_to!(v => v[i as int]));
        }
        let x = v[i].debug_text();
        out.append("\n    ");
        push_text(&mut out, &x);
        proof {
            let t = sv.subrange(0, i + 1);
            assert(t.drop_last() =~= sv.subrange(0, i as int));
            assert(t[t.len() - 1] == sv[i as int]);
        }
        i = i + 1;
    }
    proof {
        assert(sv.subrange(0, i as int) =~= sv);
    }
    out
}

impl LinearStmt {
    /// The debugging text of the statement (see `dbg_lin`).
    pub fn debug_text(&self) -> (r: String)
        ensures
            r@ == dbg_lin(self@),
        decreases self, 1int,
    {
        let mut s = String::new();
        match self {
            LinearStmt::Assign(reg, e) => {
                s.append("Assign(");
                push_text(&mut s, &dec_string(*reg as u32));
                s.append(", ");
                push_text(&mut s, &e.debug_text());
                s.append(")");
            },
            LinearStmt::Store(a, v) => {
                s.append("Store(");
                push_text(&mut s, &a.debug_text());
                s.append(", ");
                push_text(&mut s, &v.debug_text());
                s.append(")");
            },
            LinearStmt::Goto(e, cc, t) => {
                s.append("Goto(");
                push_text(&mut s, &dbg_opt_text(e));
                s.append(", 0x");
                push_text(&mut s, &hex_string(*cc as u32));
                s.append(", 0x");
                push_text(&mut s, &hex_string(*t as u32));
                s.append(")");
            },
            LinearStmt::Call(t, args) => {
                s.append("Call(");
                push_text(&mut s, &t.debug_text());
                push_text(&mut s, &dbg_args_text(args));
                s.append(")");
            },
            LinearStmt::Return(v) => match v {
                Some(e) => {
                    s.append("Return(");
                    push_text(&mut s, &e.debug_text());
                    s.append(")");
                },
                None => {
                    s.append("Return");
                },
            },
            LinearStmt::Trap(v) => {
                s.append("Trap(0x");
                push_text(&mut s, &hex_string(*v as u32));
                s.append(")");
            },
            LinearStmt::IndirectGoto(t) => {
                s.append("IndirectGoto(");
                push_text(&mut s, &t.debug_text());
                s.append(")");
            },
            LinearStmt::DoWhile(c, cc, b) => {
                s.append("DoWhile(");
                push_text(&mut s, &dbg_opt_text(c));
                s.append(", 0x");
                push_text(&mut s, &hex_string(*cc as u32));
                s.append(", {");
                push_text(&mut s, &dbg_lins_text(b));
                s.append("\n})");
            },
            LinearStmt::While(c, cc, b) => {
                s.append("While(");
                push_text(&mut s, &dbg_opt_text(c));
                s.append(", 0x");
                push_text(&mut s, &hex_string(*cc as u32));
                s.append(", {");
                push_text(&mut s, &dbg_lins_text(b));
                s.append("\n})");
            },
            LinearStmt::For(i, c, cc, n, b) => {
                s.append("For(");
                push_text(&mut s, &i.debug_text());
                s.append(", ");
                push_text(&mut s, &dbg_opt_text(c));
                s.append(", 0x");
                push_text(&mut s, &hex_string(*cc as u32));
                s.append(", ");
                push_text(&mut s, &n.debug_text());
                s.append(", {");
                push_text(&mut s, &dbg_lins_text(b));
                s.append("\n})");
            },
            LinearStmt::If(c, cc, t, f) => {
                s.append("If(");
                push_text(&mut s, &dbg_opt_text(c));
                s.append(", 0x");
                push_text(&mut s, &hex_string(*cc as u32));
                s.append(", {");
                push_text(&mut s, &dbg_lins_text(t));
                s.append("\n  }");
                match f {
                    Some(fs) => {
                        s.append(" else {");
                        push_text(&mut s, &dbg_lins_text(fs));
                        s.append("\n  }");
                    },
                    None => {},
                }
                s.append(")");
            },
            LinearStmt::Break => {
                s.append("Break");
            },
            LinearStmt::Continue => {
                s.append("Continue");
            },
            LinearStmt::Label(a) => {
                s.append("Label(0x");
                push_text(&mut s, &hex_string(*a as u32));
                s.append(")");
            },
        }
        s
    }
}

} // verus!
