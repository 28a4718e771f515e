use vstd::prelude::*;
use crate::codegen::slines;
use crate::ir::{SExpr, SStmt, blocks_change, collapse_blocks_once, collapse_fix, lemma_collapse_blocks_once};
use crate::linear::{
    SLin, lemma_lsh_elem, lheight, lsh, ltargets, ltargets_ss, negated_cc, neg_logical, sig, sig_from, sig_nested,
    strip_labels, strip_labels_ss,
};
use crate::passes::{lemma_single_use_once, single_use_changes, single_use_fix, single_use_once, stmt_count};
use crate::ir::blocks_size;
use crate::cfg::{BasicBlock, dom_set, dominators_solved, meet};
use crate::liveness::{bits_le, live_below, live_bound, liveness_solved};

verus! {

/// Whether a branch with condition code `cc` (bit 2: negative, bit 1: zero,
/// bit 0: positive) is taken when the tested value is `v`.
pub open spec fn cc_holds(cc: u8, v: i16) -> bool {
    ||| v < 0 && cc & 4 != 0
    ||| v == 0 && cc & 2 != 0
    ||| v > 0 && cc & 1 != 0
}

/// Whether the condition "`e` tested by `cc`" holds, where `val` gives the
/// value of each expression: the parts of a compound condition are tested
/// by their own codes and joined.
pub open spec fn cond_holds(e: SExpr, cc: u8, val: spec_fn(SExpr) -> i16) -> bool {
    match e {
        SExpr::LogicalAnd(l, c1, r, c2) => cc_holds(c1, val(*l)) && cc_holds(c2, val(*r)),
        SExpr::LogicalOr(l, c1, r, c2) => cc_holds(c1, val(*l)) || cc_holds(c2, val(*r)),
        _ => cc_holds(cc, val(e)),
    }
}

/// The condition codes of a compound condition are 3-bit codes.
pub open spec fn codes_ok(e: SExpr) -> bool {
    match e {
        SExpr::LogicalAnd(_, c1, _, c2) => c1 < 8 && c2 < 8,
        SExpr::LogicalOr(_, c1, _, c2) => c1 < 8 && c2 < 8,
        _ => true,
    }
}

/// Negating a 3-bit condition code gives a 3-bit code, negating it twice
/// gives it back, and a branch on the negated code is taken exactly when a
/// branch on the code is not.
pub proof fn law_negated_cc(cc: u8, v: i16)
    requires
        cc < 8,
    ensures
        negated_cc(cc) < 8,
        negated_cc(negated_cc(cc)) == cc,
        cc_holds(negated_cc(cc), v) == !cc_holds(cc, v),
{
    assert(((!cc) & 7u8) < 8) by (bit_vector);
    assert(cc < 8 ==> ((!((!cc) & 7u8)) & 7u8) == cc) by (bit_vector);
    assert(cc < 8 ==> ((((!cc) & 7u8) & 4u8) != 0) == ((cc & 4u8) == 0)) by (bit_vector);
    assert(cc < 8 ==> ((((!cc) & 7u8) & 2u8) != 0) == ((cc & 2u8) == 0)) by (bit_vector);
    assert(cc < 8 ==> ((((!cc) & 7u8) & 1u8) != 0) == ((cc & 1u8) == 0)) by (bit_vector);
}

/// The negation of a condition by De Morgan's laws is its logical
/// negation: a compound condition with its parts' codes negated and `&&` and
/// `||` swapped holds exactly when the condition does not, and so does a
/// plain condition tested by the negated code.
pub proof fn law_negated_condition(e: SExpr, cc: u8, val: spec_fn(SExpr) -> i16)
    requires
        cc < 8,
        codes_ok(e),
    ensures
        cond_holds(neg_logical(e), negated_cc(cc), val) == !cond_holds(e, cc, val),
{
    match e {
        SExpr::LogicalAnd(l, c1, r, c2) => {
            law_negated_cc(c1, val(*l));
            law_negated_cc(c2, val(*r));
        },
        SExpr::LogicalOr(l, c1, r, c2) => {
            law_negated_cc(c1, val(*l));
            law_negated_cc(c2, val(*r));
        },
        _ => {
            law_negated_cc(cc, val(e));
        },
    }
}

/// Negating a condition twice gives it back.
pub proof fn law_neg_logical_involution(e: SExpr)
    requires
        codes_ok(e),
    ensures
        neg_logical(neg_logical(e)) == e,
{
    match e {
        SExpr::LogicalAnd(l, c1, r, c2) => {
            law_negated_cc(c1, 0);
            law_negated_cc(c2, 0);
        },
        SExpr::LogicalOr(l, c1, r, c2) => {
            law_negated_cc(c1, 0);
            law_negated_cc(c2, 0);
        },
        _ => {},
    }
}

/// After expression collapsing, one more simplification pass over the
/// blocks changes nothing.
pub proof fn law_collapse_fixpoint(b: Seq<(u16, Seq<SStmt>)>)
    ensures
        !blocks_change(collapse_fix(b)),
    decreases blocks_size(b),
{
    if blocks_change(b) {
        lemma_collapse_blocks_once(b);
        law_collapse_fixpoint(collapse_blocks_once(b));
    }
}

/// After variable propagation, one more round of single-use propagation
/// changes nothing, and the blocks hold no more statements than before.
pub proof fn law_single_use_fixpoint(b: Seq<(u16, Seq<SStmt>)>)
    ensures
        !single_use_changes(single_use_fix(b)),
        stmt_count(single_use_fix(b)) <= stmt_count(b),
    decreases stmt_count(b),
{
    if single_use_changes(b) {
        lemma_single_use_once(b);
        law_single_use_fixpoint(single_use_once(b));
    }
}

/// Removing labels leaves the goto targets of a statement as they are.
proof fn lemma_strip_targets(l: SLin, t: Set<u16>)
    ensures
        ltargets(strip_labels(l, t)) == ltargets(l),
    decreases l, 1int,
{
    match l {
        SLin::While(_, _, b) => lemma_strip_targets_ss(b, t),
        SLin::DoWhile(_, _, b) => lemma_strip_targets_ss(b, t),
        SLin::For(_, _, _, _, b) => lemma_strip_targets_ss(b, t),
        SLin::If(_, _, tb, fb) => {
            lemma_strip_targets_ss(tb, t);
            match fb {
                Some(fs) => lemma_strip_targets_ss(fs, t),
                None => {},
            }
        },
        _ => {},
    }
}

/// Removing labels leaves the goto targets of statements as they are.
proof fn lemma_strip_targets_ss(ss: Seq<SLin>, t: Set<u16>)
    ensures
        ltargets_ss(strip_labels_ss(ss, t)) == ltargets_ss(ss),
    decreases ss, 0int,
{
    if ss.len() > 0 {
        let p = ss.drop_last();
        lemma_strip_targets_ss(p, t);
        let r = strip_labels_ss(p, t);
        match ss.last() {
            SLin::Label(a) => {
                assert(ltargets(SLin::Label(a)) =~= Set::<u16>::empty());
                if t.contains(a) {
                    let q = r.push(SLin::Label(a));
                    assert(q.drop_last() =~= r);
                    assert(q.last() == SLin::Label(a));
                    assert(ltargets_ss(q) =~= ltargets_ss(r));
                }
                assert(ss.last() == SLin::Label(a));
                assert(ltargets_ss(ss) =~= ltargets_ss(p));
            },
            _ => {
                lemma_strip_targets(ss.last(), t);
                assert(r.push(strip_labels(ss.last(), t)).drop_last() =~= r);
            },
        }
    }
}

/// Removing the labels outside `t` twice removes nothing more.
proof fn lemma_strip_twice(l: SLin, t: Set<u16>)
    ensures
        strip_labels(strip_labels(l, t), t) == strip_labels(l, t),
    decreases l, 1int,
{
    match l {
        SLin::While(_, _, b) => lemma_strip_twice_ss(b, t),
        SLin::DoWhile(_, _, b) => lemma_strip_twice_ss(b, t),
        SLin::For(_, _, _, _, b) => lemma_strip_twice_ss(b, t),
        SLin::If(_, _, tb, fb) => {
            lemma_strip_twice_ss(tb, t);
            match fb {
                Some(fs) => lemma_strip_twice_ss(fs, t),
                None => {},
            }
        },
        _ => {},
    }
}

/// Removing the labels outside `t` twice removes nothing more.
proof fn lemma_strip_twice_ss(ss: Seq<SLin>, t: Set<u16>)
    ensures
        strip_labels_ss(strip_labels_ss(ss, t), t) == strip_labels_ss(ss, t),
    decreases ss, 0int,
{
    if ss.len() > 0 {
        let p = ss.drop_last();
        lemma_strip_twice_ss(p, t);
        let r = strip_labels_ss(p, t);
        match ss.last() {
            SLin::Label(a) => {
                if t.contains(a) {
                    let q = r.push(SLin::Label(a));
                    assert(q.drop_last() =~= r);
                }
            },
            _ => {
                let x = strip_labels(ss.last(), t);
                lemma_strip_twice(ss.last(), t);
                let q = r.push(x);
                assert(q.drop_last() =~= r);
                assert(q.last() == x);
                assert(!(x is Label));
            },
        }
    }
}

/// Every label that removal keeps at the top level is in `t`.
proof fn lemma_strip_kept(ss: Seq<SLin>, t: Set<u16>)
    ensures
        forall|i: int| 0 <= i < strip_labels_ss(ss, t).len() ==> (#[trigger] strip_labels_ss(ss, t)[i] matches SLin::Label(a)
            ==> t.contains(a)),
    decreases ss.len(),
{
    if ss.len() > 0 {
        lemma_strip_kept(ss.drop_last(), t);
        let r = strip_labels_ss(ss.drop_last(), t);
        let q = strip_labels_ss(ss, t);
        assert forall|i: int| 0 <= i < q.len() implies (#[trigger] q[i] matches SLin::Label(a) ==> t.contains(a)) by {
            if i < r.len() {
                assert(q[i] == r[i]);
            } else {
                match ss.last() {
                    SLin::Label(a) => {
                        if t.contains(a) {
                            assert(q == r.push(SLin::Label(a)));
                        } else {
                            assert(q == r);
                        }
                    },
                    _ => {
                        let x = strip_labels(ss.last(), t);
                        assert(q == r.push(x));
                        assert(q[i] == x);
                        assert(!(x is Label));
                    },
                }
            }
        }
    }
}

/// Removing orphaned labels keeps every goto, keeps at the top level only
/// labels that some goto targets, and removes nothing more when done again.
pub proof fn law_orphaned_labels(ss: Seq<SLin>)
    ensures
        ltargets_ss(strip_labels_ss(ss, ltargets_ss(ss))) == ltargets_ss(ss),
        forall|i: int|
            0 <= i < strip_labels_ss(ss, ltargets_ss(ss)).len() ==> (#[trigger] strip_labels_ss(ss, ltargets_ss(ss))[i] matches SLin::Label(a)
                ==> ltargets_ss(ss).contains(a)),
        strip_labels_ss(
            strip_labels_ss(ss, ltargets_ss(ss)),
            ltargets_ss(strip_labels_ss(ss, ltargets_ss(ss))),
        ) == strip_labels_ss(ss, ltargets_ss(ss)),
{
    let t = ltargets_ss(ss);
    lemma_strip_targets_ss(ss, t);
    lemma_strip_kept(ss, t);
    lemma_strip_twice_ss(ss, t);
}

/// The code of a sequence of statements is the code of its first part
/// followed by the code of the rest.
pub proof fn law_code_concat(a: Seq<SLin>, b: Seq<SLin>, sp: Seq<char>, m: Map<u16, Seq<char>>)
    ensures
        slines(a + b, sp, m) == slines(a, sp, m) + slines(b, sp, m),
    decreases b.len(),
{
    if b.len() == 0 {
        assert(a + b =~= a);
    } else {
        law_code_concat(a, b.drop_last(), sp, m);
        assert((a + b).drop_last() =~= a + b.drop_last());
        assert((a + b)[(a + b).len() - 1] == b[b.len() - 1]);
    }
}

/// Liveness computed from the per-block facts (no register live yet) by the
/// global propagation is the least solution of the dataflow equations: every
/// solution with the same uses and definitions holds at least its live sets.
pub proof fn law_liveness_least(
    g: Map<u16, BasicBlock>,
    local: Map<u16, (u8, u8, u8, u8)>,
    result: Map<u16, (u8, u8, u8, u8)>,
    sol: Map<u16, (u8, u8, u8, u8)>,
)
    requires
        forall|k: u16| #[trigger] local.dom().contains(k) ==> local[k].2 == 0 && local[k].3 == 0,
        forall|s: Map<u16, (u8, u8, u8, u8)>| #[trigger] live_bound(g, local, s) ==> live_below(result, s),
        sol.dom() == local.dom(),
        forall|k: u16| #[trigger] local.dom().contains(k) ==> sol[k].0 == local[k].0 && sol[k].1 == local[k].1,
        liveness_solved(g, sol),
    ensures
        live_below(result, sol),
{
    assert forall|k: u16| #[trigger] local.dom().contains(k) implies bits_le(local[k].2, sol[k].2) && bits_le(
        local[k].3,
        sol[k].3,
    ) by {
        let a = sol[k].2;
        let b = sol[k].3;
        assert(0u8 & !a == 0) by (bit_vector);
        assert(0u8 & !b == 0) by (bit_vector);
    }
    assert(live_bound(g, local, sol));
}

/// Once the dominators are computed, every block dominates itself, and the
/// entry is dominated by itself alone.
pub proof fn law_dominates_itself(g: Map<u16, BasicBlock>, entry: u16, k: u16)
    requires
        dominators_solved(g, entry),
        g.dom().contains(k),
    ensures
        g[k].dominators@.contains(k),
        k == entry ==> g[k].dominators@ == seq![entry],
{
    if k == entry {
        assert(g[k].dominators@[0] == k);
    } else {
        assert(meet(g, k).contains(k));
        assert(dom_set(g, k).contains(k));
    }
}

/// Whether a statement holds, at any depth (but not in the initialisation
/// and increment of a `for` loop), a goto whose condition is not "always".
pub open spec fn has_cond_goto(l: SLin) -> bool
    decreases l,
{
    match l {
        SLin::Goto(Some(_), cc, _) => cc != 7,
        SLin::While(_, _, b) => any_cond_goto(b),
        SLin::DoWhile(_, _, b) => any_cond_goto(b),
        SLin::For(_, _, _, _, b) => any_cond_goto(b),
        SLin::If(_, _, t, f) => any_cond_goto(t) || match f {
            Some(fs) => any_cond_goto(fs),
            None => false,
        },
        _ => false,
    }
}

/// Whether some statement of a sequence has a conditional goto.
pub open spec fn any_cond_goto(ss: Seq<SLin>) -> bool
    decreases ss,
{
    if ss.len() == 0 {
        false
    } else {
        any_cond_goto(ss.drop_last()) || has_cond_goto(ss.last())
    }
}

proof fn lemma_no_cond_goto_elem(ss: Seq<SLin>, i: int)
    requires
        !any_cond_goto(ss),
        0 <= i < ss.len(),
    ensures
        !has_cond_goto(ss[i]),
    decreases ss.len(),
{
    if i < ss.len() - 1 {
        assert(ss.drop_last()[i] == ss[i]);
        lemma_no_cond_goto_elem(ss.drop_last(), i);
    }
}

/// Statements without conditional gotos are left as they are by the
/// structuring of if-goto patterns.
pub proof fn law_sig_no_cond_goto(s: Seq<SLin>)
    requires
        !any_cond_goto(s),
    ensures
        sig(s) == s,
    decreases lsh(s), s.len(), s.len() + 2,
{
    lemma_sig_from_no_cond_goto(s, 0);
    assert(s.skip(0) =~= s);
}

proof fn lemma_sig_from_no_cond_goto(s: Seq<SLin>, i: int)
    requires
        !any_cond_goto(s),
        0 <= i <= s.len(),
    ensures
        sig_from(s, i) == s.skip(i),
    decreases lsh(s), s.len(), s.len() - i + 1,
{
    if i < s.len() {
        lemma_no_cond_goto_elem(s, i);
        lemma_sig_nested_no_cond_goto(s, i);
        lemma_sig_from_no_cond_goto(s, i + 1);
        assert(seq![s[i]] + s.skip(i + 1) =~= s.skip(i));
        match s[i] {
            SLin::Goto(Some(c), cc, ft) => {
                assert(cc == 7);
            },
            _ => {},
        }
    } else {
        assert(s.skip(i) =~= Seq::<SLin>::empty());
    }
}

proof fn lemma_sig_nested_no_cond_goto(s: Seq<SLin>, i: int)
    requires
        !any_cond_goto(s),
        0 <= i < s.len(),
    ensures
        sig_nested(s, i) == s[i],
    decreases lsh(s), s.len(), 0int,
{
    lemma_no_cond_goto_elem(s, i);
    lemma_lsh_elem(s, i);
    match s[i] {
        SLin::While(_, _, b) => law_sig_no_cond_goto(b),
        SLin::DoWhile(_, _, b) => law_sig_no_cond_goto(b),
        SLin::For(_, _, _, _, b) => law_sig_no_cond_goto(b),
        SLin::If(_, _, t, f) => {
            law_sig_no_cond_goto(t);
            match f {
                Some(fs) => law_sig_no_cond_goto(fs),
                None => {},
            }
        },
        _ => {},
    }
}

/// The addresses of the labels of a statement, at any depth, in order.
pub open spec fn label_seq(l: SLin) -> Seq<u16>
    decreases l, 1int,
{
    match l {
        SLin::Label(a) => seq![a],
        SLin::While(_, _, b) => label_seq_ss(b),
        SLin::DoWhile(_, _, b) => label_seq_ss(b),
        SLin::For(_, _, _, _, b) => label_seq_ss(b),
        SLin::If(_, _, tb, fb) => label_seq_ss(tb) + match fb {
            Some(fs) => label_seq_ss(fs),
            None => Seq::empty(),
        },
        _ => Seq::empty(),
    }
}

/// The addresses of the labels of statements, at any depth, in order.
pub open spec fn label_seq_ss(ss: Seq<SLin>) -> Seq<u16>
    decreases ss, 0int,
{
    if ss.len() == 0 {
        Seq::empty()
    } else {
        label_seq_ss(ss.drop_last()) + label_seq(ss.last())
    }
}

proof fn lemma_strip_compose(l: SLin, t: Set<u16>, u: Set<u16>)
    ensures
        strip_labels(strip_labels(l, t), u) == strip_labels(l, t.intersect(u)),
    decreases l, 1int,
{
    match l {
        SLin::While(_, _, b) => lemma_strip_compose_ss(b, t, u),
        SLin::DoWhile(_, _, b) => lemma_strip_compose_ss(b, t, u),
        SLin::For(_, _, _, _, b) => lemma_strip_compose_ss(b, t, u),
        SLin::If(_, _, tb, fb) => {
            lemma_strip_compose_ss(tb, t, u);
            match fb {
                Some(fs) => lemma_strip_compose_ss(fs, t, u),
                None => {},
            }
        },
        _ => {},
    }
}

proof fn lemma_strip_compose_ss(ss: Seq<SLin>, t: Set<u16>, u: Set<u16>)
    ensures
        strip_labels_ss(strip_labels_ss(ss, t), u) == strip_labels_ss(ss, t.intersect(u)),
    decreases ss, 0int,
{
    if ss.len() > 0 {
        let p = ss.drop_last();
        lemma_strip_compose_ss(p, t, u);
        let r = strip_labels_ss(p, t);
        match ss.last() {
            SLin::Label(a) => {
                if t.contains(a) {
                    let q = r.push(SLin::Label(a));
                    assert(q.drop_last() =~= r);
                    assert(q.last() == SLin::Label(a));
                }
            },
            _ => {
                let x = strip_labels(ss.last(), t);
                lemma_strip_compose(ss.last(), t, u);
                let q = r.push(x);
                assert(q.drop_last() =~= r);
                assert(q.last() == x);
                assert(!(x is Label));
            },
        }
    }
}

proof fn lemma_label_seq_strip(l: SLin, t: Set<u16>)
    requires
        !(l is Label),
    ensures
        label_seq(strip_labels(l, t)) == label_seq(l).filter(|a: u16| t.contains(a)),
    decreases l, 1int,
{
    let pr = |a: u16| t.contains(a);
    match l {
        SLin::While(_, _, b) => lemma_label_seq_strip_ss(b, t),
        SLin::DoWhile(_, _, b) => lemma_label_seq_strip_ss(b, t),
        SLin::For(_, _, _, _, b) => lemma_label_seq_strip_ss(b, t),
        SLin::If(_, _, tb, fb) => {
            lemma_label_seq_strip_ss(tb, t);
            let rest = match fb {
                Some(fs) => label_seq_ss(fs),
                None => Seq::<u16>::empty(),
            };
            match fb {
                Some(fs) => lemma_label_seq_strip_ss(fs, t),
                None => {
                    assert(Seq::<u16>::empty().filter(pr) =~= Seq::<u16>::empty()) by {
                        reveal(Seq::filter);
                    }
                },
            }
            Seq::filter_distributes_over_add(label_seq_ss(tb), rest, pr);
        },
        _ => {
            assert(Seq::<u16>::empty().filter(pr) =~= Seq::<u16>::empty()) by {
                reveal(Seq::filter);
            }
        },
    }
}

proof fn lemma_label_seq_strip_ss(ss: Seq<SLin>, t: Set<u16>)
    ensures
        label_seq_ss(strip_labels_ss(ss, t)) == label_seq_ss(ss).filter(|a: u16| t.contains(a)),
    decreases ss, 0int,
{
    let pr = |a: u16| t.contains(a);
    if ss.len() == 0 {
        assert(Seq::<u16>::empty().filter(pr) =~= Seq::<u16>::empty()) by {
            reveal(Seq::filter);
        }
    } else {
        let p = ss.drop_last();
        lemma_label_seq_strip_ss(p, t);
        let r = strip_labels_ss(p, t);
        Seq::filter_distributes_over_add(label_seq_ss(p), label_seq(ss.last()), pr);
        match ss.last() {
            SLin::Label(a) => {
                let one = seq![a];
                assert(one.filter(pr) == (if t.contains(a) { one } else { Seq::<u16>::empty() })) by {
                    reveal(Seq::filter);
                    assert(one.drop_last() =~= Seq::<u16>::empty());
                    assert(Seq::<u16>::empty().filter(pr) =~= Seq::<u16>::empty());
                    assert(one.last() == a);
                }
                if t.contains(a) {
                    let q = r.push(SLin::Label(a));
                    assert(q.drop_last() =~= r);
                    assert(q.last() == SLin::Label(a));
                } else {
                    assert(label_seq_ss(r) + Seq::<u16>::empty() =~= label_seq_ss(r));
                }
            },
            _ => {
                let x = strip_labels(ss.last(), t);
                lemma_label_seq_strip(ss.last(), t);
                let q = r.push(x);
                assert(q.drop_last() =~= r);
                assert(q.last() == x);
            },
        }
    }
}

/// Removing orphaned labels keeps all other statements, at any depth and in
/// order (removing every label from the result and from the input gives the
/// same statements), and keeps, of the labels at any depth, exactly those
/// whose address some goto targets, in order.
pub proof fn law_orphaned_labels_kept(ss: Seq<SLin>)
    ensures
        strip_labels_ss(strip_labels_ss(ss, ltargets_ss(ss)), Set::empty()) == strip_labels_ss(ss, Set::empty()),
        label_seq_ss(strip_labels_ss(ss, ltargets_ss(ss))) == label_seq_ss(ss).filter(|a: u16| ltargets_ss(ss).contains(a)),
{
    let t = ltargets_ss(ss);
    lemma_strip_compose_ss(ss, t, Set::empty());
    assert(t.intersect(Set::<u16>::empty()) =~= Set::<u16>::empty());
    lemma_label_seq_strip_ss(ss, t);
}

} // verus!
