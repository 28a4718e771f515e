use vstd::prelude::*;
use vstd::wrapping::i16_specs::{wrapping_add, wrapping_sub};
use crate::ir::{SExpr, SKind, add_rule, is_imm_val, wadd, and_rule, collapse, collapse_kind, esize, lemma_collapse_kind, lemma_collapse_shrinks, sub_rule};

verus! {

/// Whether an expression is built from registers, parameters, immediates,
/// loads and 16-bit arithmetic alone: no calls and no compound conditions.
pub open spec fn arith_only(e: SExpr) -> bool
    decreases e,
{
    match e {
        SExpr::Register(_) => true,
        SExpr::Immediate(_) => true,
        SExpr::Param(_) => true,
        SExpr::Add(a, b) => arith_only(*a) && arith_only(*b),
        SExpr::And(a, b) => arith_only(*a) && arith_only(*b),
        SExpr::Sub(a, b) => arith_only(*a) && arith_only(*b),
        SExpr::Not(a) => arith_only(*a),
        SExpr::Neg(a) => arith_only(*a),
        SExpr::Load(a) => arith_only(*a),
        SExpr::Call(_, _) => false,
        SExpr::LogicalAnd(_, _, _, _) => false,
        SExpr::LogicalOr(_, _, _, _) => false,
    }
}

/// The 16-bit two's-complement value of an expression, given the values of
/// the registers and the parameters and the contents of memory: additions,
/// subtractions and negations wrap around, `&` and `~` act on the bits, and a
/// load reads memory at the address that its operand evaluates to. Calls and
/// compound conditions get no value here (see `arith_only`).
pub open spec fn eval16(
    e: SExpr,
    regs: spec_fn(u8) -> i16,
    params: spec_fn(u8) -> i16,
    mem: spec_fn(i16) -> i16,
) -> i16
    decreases e,
{
    match e {
        SExpr::Register(r) => regs(r),
        SExpr::Immediate(v) => v,
        SExpr::Param(p) => params(p),
        SExpr::Add(a, b) => wrapping_add(eval16(*a, regs, params, mem), eval16(*b, regs, params, mem)),
        SExpr::And(a, b) => eval16(*a, regs, params, mem) & eval16(*b, regs, params, mem),
        SExpr::Sub(a, b) => wrapping_sub(eval16(*a, regs, params, mem), eval16(*b, regs, params, mem)),
        SExpr::Not(a) => !eval16(*a, regs, params, mem),
        SExpr::Neg(a) => wrapping_sub(0, eval16(*a, regs, params, mem)),
        SExpr::Load(a) => mem(eval16(*a, regs, params, mem)),
        _ => 0,
    }
}

proof fn lemma_not_value(x: i16)
    ensures
        !(!x) == x,
        !x == wrapping_sub(-1i16, x),
        wrapping_add(!x, 1) == wrapping_sub(0, x),
        wrapping_add(1, !x) == wrapping_sub(0, x),
{
    assert(!(!x) == x) by (bit_vector);
    assert((!x) as int == -1 - x) by (bit_vector);
}

proof fn lemma_and_value(x: i16)
    ensures
        x & 0i16 == 0,
        0i16 & x == 0,
        x & -1i16 == x,
        -1i16 & x == x,
        x & x == x,
{
    assert(x & 0i16 == 0) by (bit_vector);
    assert(0i16 & x == 0) by (bit_vector);
    assert(x & -1i16 == x) by (bit_vector);
    assert(-1i16 & x == x) by (bit_vector);
    assert(x & x == x) by (bit_vector);
}

proof fn lemma_wrap_value(x: i16, y: i16, z: i16)
    ensures
        wrapping_add(x, 0) == x,
        wrapping_add(0, x) == x,
        wrapping_sub(x, 0) == x,
        wrapping_sub(x, x) == 0,
        wrapping_sub(0, wrapping_sub(0, x)) == x,
        wrapping_add(x, wrapping_sub(0, y)) == wrapping_sub(x, y),
        wrapping_add(wrapping_sub(0, y), x) == wrapping_sub(x, y),
        wrapping_add(wrapping_add(x, y), z) == wrapping_add(x, wrapping_add(y, z)),
        wrapping_add(z, wrapping_add(x, y)) == wrapping_add(x, wrapping_add(y, z)),
{
}

/// The value of `and_rule`'s result is the `&` of its operands' values.
proof fn lemma_and_rule_value(l: SExpr, r: SExpr, ch: bool, regs: spec_fn(u8) -> i16, params: spec_fn(u8) -> i16, mem: spec_fn(i16) -> i16)
    requires
        arith_only(l),
        arith_only(r),
    ensures
        arith_only(and_rule(l, r, ch).0),
        eval16(and_rule(l, r, ch).0, regs, params, mem) == eval16(l, regs, params, mem) & eval16(r, regs, params, mem),
{
    lemma_and_value(eval16(l, regs, params, mem));
    lemma_and_value(eval16(r, regs, params, mem));
}

/// The value of `add_rule`'s result is the wrapping sum of its operands'
/// values.
proof fn lemma_add_rule_value(l: SExpr, r: SExpr, ch: bool, regs: spec_fn(u8) -> i16, params: spec_fn(u8) -> i16, mem: spec_fn(i16) -> i16)
    requires
        arith_only(l),
        arith_only(r),
    ensures
        arith_only(add_rule(l, r, ch).0),
        eval16(add_rule(l, r, ch).0, regs, params, mem) == wrapping_add(eval16(l, regs, params, mem), eval16(r, regs, params, mem)),
{
    let vl = eval16(l, regs, params, mem);
    let vr = eval16(r, regs, params, mem);
    lemma_wrap_value(vl, vr, 0);
    if is_imm_val(l, 0) || is_imm_val(r, 0) {
    } else if l is Immediate && r is Immediate {
    } else if l is Not && is_imm_val(r, 1) {
        lemma_not_value(eval16(*l->Not_0, regs, params, mem));
        assert(arith_only(*l->Not_0));
        assert(arith_only(SExpr::Neg(l->Not_0)));
    } else if is_imm_val(l, 1) && r is Not {
        lemma_not_value(eval16(*r->Not_0, regs, params, mem));
        assert(arith_only(*r->Not_0));
        assert(arith_only(SExpr::Neg(r->Not_0)));
    } else if r is Neg {
        lemma_wrap_value(vl, eval16(*r->Neg_0, regs, params, mem), 0);
        assert(arith_only(*r->Neg_0));
        assert(arith_only(SExpr::Sub(Box::new(l), r->Neg_0)));
    } else if l is Neg {
        lemma_wrap_value(vr, eval16(*l->Neg_0, regs, params, mem), 0);
        assert(arith_only(*l->Neg_0));
        assert(arith_only(SExpr::Sub(Box::new(r), l->Neg_0)));
    } else if l is Add && r is Immediate {
        assert(arith_only(*l->Add_0));
        if (*l->Add_1) is Immediate {
            let a = eval16(*l->Add_0, regs, params, mem);
            let b = eval16(*l->Add_1, regs, params, mem);
            lemma_wrap_value(a, b, vr);
            let c = SExpr::Immediate(wadd((*l->Add_1)->Immediate_0, r->Immediate_0));
            assert(eval16(c, regs, params, mem) == wrapping_add(b, vr));
            assert(eval16(SExpr::Add(l->Add_0, Box::new(c)), regs, params, mem) == wrapping_add(a, wrapping_add(b, vr)));
            assert(arith_only(c));
            assert(arith_only(SExpr::Add(l->Add_0, Box::new(c))));
        } else {
            assert(arith_only(SExpr::Add(Box::new(l), Box::new(r))));
        }
    } else if l is Immediate && r is Add {
        assert(arith_only(*r->Add_0));
        if (*r->Add_1) is Immediate {
            let a = eval16(*r->Add_0, regs, params, mem);
            let b = eval16(*r->Add_1, regs, params, mem);
            lemma_wrap_value(a, b, vl);
            let c = SExpr::Immediate(wadd((*r->Add_1)->Immediate_0, l->Immediate_0));
            assert(eval16(c, regs, params, mem) == wrapping_add(b, vl));
            assert(eval16(SExpr::Add(r->Add_0, Box::new(c)), regs, params, mem) == wrapping_add(a, wrapping_add(b, vl)));
            assert(arith_only(c));
            assert(arith_only(SExpr::Add(r->Add_0, Box::new(c))));
        } else {
            assert(arith_only(SExpr::Add(Box::new(l), Box::new(r))));
        }
    } else {
        assert(arith_only(SExpr::Add(Box::new(l), Box::new(r))));
    }
}

/// The value of `sub_rule`'s result is the wrapping difference of its
/// operands' values.
proof fn lemma_sub_rule_value(l: SExpr, r: SExpr, ch: bool, regs: spec_fn(u8) -> i16, params: spec_fn(u8) -> i16, mem: spec_fn(i16) -> i16)
    requires
        arith_only(l),
        arith_only(r),
    ensures
        arith_only(sub_rule(l, r, ch).0),
        eval16(sub_rule(l, r, ch).0, regs, params, mem) == wrapping_sub(eval16(l, regs, params, mem), eval16(r, regs, params, mem)),
{
    lemma_wrap_value(eval16(l, regs, params, mem), eval16(r, regs, params, mem), 0);
}

/// Expression collapsing keeps the 16-bit value of an expression, whatever
/// the registers, parameters and memory hold: folding immediates, removing
/// double negations and the other rewrites agree with two's-complement
/// arithmetic on 16 bits.
pub proof fn law_collapse_value(e: SExpr, regs: spec_fn(u8) -> i16, params: spec_fn(u8) -> i16, mem: spec_fn(i16) -> i16)
    requires
        arith_only(e),
    ensures
        arith_only(collapse(e).0),
        eval16(collapse(e).0, regs, params, mem) == eval16(e, regs, params, mem),
    decreases e,
{
    match e {
        SExpr::Load(a) => {
            law_collapse_value(*a, regs, params, mem);
        },
        SExpr::Not(a) => {
            law_collapse_value(*a, regs, params, mem);
            lemma_not_value(eval16(*a, regs, params, mem));
            let n = collapse(*a).0;
            if let SExpr::Not(v) = n {
                lemma_not_value(eval16(*v, regs, params, mem));
            }
        },
        SExpr::Neg(a) => {
            law_collapse_value(*a, regs, params, mem);
            let n = collapse(*a).0;
            if let SExpr::Neg(v) = n {
                lemma_wrap_value(eval16(*v, regs, params, mem), 0, 0);
            }
        },
        SExpr::And(a, b) => {
            law_collapse_value(*a, regs, params, mem);
            law_collapse_value(*b, regs, params, mem);
            lemma_and_rule_value(collapse(*a).0, collapse(*b).0, collapse(*a).1 || collapse(*b).1, regs, params, mem);
        },
        SExpr::Add(a, b) => {
            law_collapse_value(*a, regs, params, mem);
            law_collapse_value(*b, regs, params, mem);
            lemma_add_rule_value(collapse(*a).0, collapse(*b).0, collapse(*a).1 || collapse(*b).1, regs, params, mem);
        },
        SExpr::Sub(a, b) => {
            law_collapse_value(*a, regs, params, mem);
            law_collapse_value(*b, regs, params, mem);
            lemma_sub_rule_value(collapse(*a).0, collapse(*b).0, collapse(*a).1 || collapse(*b).1, regs, params, mem);
        },
        _ => {},
    }
}

/// Expression collapsing reports a change exactly when the expression
/// changed, and a change makes it smaller (counted in nodes), so collapsing
/// again and again reaches a fixpoint.
pub proof fn law_collapse_flag(e: SExpr)
    ensures
        collapse(e).1 <==> collapse(e).0 != e,
        collapse(e).1 ==> esize(collapse(e).0) < esize(e),
{
    lemma_collapse_shrinks(e);
}

/// Collapsing the expressions of a statement reports a change exactly when
/// the statement changed.
pub proof fn law_collapse_stmt_flag(k: SKind)
    ensures
        collapse_kind(k).1 <==> collapse_kind(k).0 != k,
{
    lemma_collapse_kind(k);
}

} // verus!
