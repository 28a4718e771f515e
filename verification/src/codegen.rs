use vstd::prelude::*;
use vstd::string::{StrSliceExecFns, StringExecFns};
use crate::addr_map::AddrMap;
use crate::text::is_ws;
use crate::disasm::name_map;
use crate::ir::{Expr, SExpr, exprs_view, lemma_exprs_view, opt_view};
use crate::linear::{LinearStmt, SLin, lemma_lins_view, lin_view, lins_view};

verus! {

/// The digit `d` (below sixteen) in upper-case hexadecimal notation.
pub open spec fn digit(d: nat) -> Seq<char> {
    if d == 0 {
        "0"@
    } else if d == 1 {
        "1"@
    } else if d == 2 {
        "2"@
    } else if d == 3 {
        "3"@
    } else if d == 4 {
        "4"@
    } else if d == 5 {
        "5"@
    } else if d == 6 {
        "6"@
    } else if d == 7 {
        "7"@
    } else if d == 8 {
        "8"@
    } else if d == 9 {
        "9"@
    } else if d == 10 {
        "A"@
    } else if d == 11 {
        "B"@
    } else if d == 12 {
        "C"@
    } else if d == 13 {
        "D"@
    } else if d == 14 {
        "E"@
    } else {
        "F"@
    }
}

/// The decimal notation of `n`, without leading zeros.
pub open spec fn dec_nat(n: nat) -> Seq<char>
    decreases n,
{
    if n < 10 {
        digit(n)
    } else {
        dec_nat(n / 10) + digit(n % 10)
    }
}

/// The decimal notation of `v`, with a minus sign when it is negative.
pub open spec fn dec_int(v: int) -> Seq<char> {
    if v < 0 {
        "-"@ + dec_nat((-v) as nat)
    } else {
        dec_nat(v as nat)
    }
}

/// The upper-case hexadecimal notation of `n`, without leading zeros.
pub open spec fn hex_nat(n: nat) -> Seq<char>
    decreases n,
{
    if n < 16 {
        digit(n)
    } else {
        hex_nat(n / 16) + digit(n % 16)
    }
}

/// The four upper-case hexadecimal digits of an address.
pub open spec fn hex4(a: u16) -> Seq<char> {
    digit((a / 4096) as nat) + digit(((a / 256) % 16) as nat) + digit(((a / 16) % 16) as nat) + digit(
        (a % 16) as nat,
    )
}

/// The negation of a 16-bit value as it wraps: the most negative value is
/// its own negation.
pub open spec fn wneg(v: i16) -> int {
    if v == -32768 {
        -32768
    } else {
        -v
    }
}

/// A string of the literal text `t`.
pub(crate) fn lit(t: &str) -> (r: String)
    ensures
        r@ == t@,
{
    let mut s = String::new();
    s.append(t);
    s
}

/// The digit `d` as a one-character literal.
fn digit_str(d: u32) -> (r: &'static str)
    requires
        d < 16,
    ensures
        r@ == digit(d as nat),
{
    if d == 0 {
        "0"
    } else if d == 1 {
        "1"
    } else if d == 2 {
        "2"
    } else if d == 3 {
        "3"
    } else if d == 4 {
        "4"
    } else if d == 5 {
        "5"
    } else if d == 6 {
        "6"
    } else if d == 7 {
        "7"
    } else if d == 8 {
        "8"
    } else if d == 9 {
        "9"
    } else if d == 10 {
        "A"
    } else if d == 11 {
        "B"
    } else if d == 12 {
        "C"
    } else if d == 13 {
        "D"
    } else if d == 14 {
        "E"
    } else {
        "F"
    }
}

/// Computes `dec_nat`.
pub(crate) fn dec_string(n: u32) -> (r: String)
    ensures
        r@ == dec_nat(n as nat),
    decreases n,
{
    if n < 10 {
        lit(digit_str(n))
    } else {
        let mut s = dec_string(n / 10);
        s.append(digit_str(n % 10));
        s
    }
}

/// Computes `dec_int` for a 16-bit value.
fn dec_i16(v: i16) -> (r: String)
    ensures
        r@ == dec_int(v as int),
{
    if v < 0 {
        let n: i32 = v as i32;
        let m: u32 = (0 - n) as u32;
        let mut s = lit("-");
        let d = dec_string(m);
        s.append(d.as_str());
        s
    } else {
        dec_string(v as u32)
    }
}

/// Computes `dec_int(wneg(v))`.
fn dec_wneg(v: i16) -> (r: String)
    ensures
        r@ == dec_int(wneg(v)),
{
    if v == -32768 {
        dec_i16(v)
    } else {
        dec_i16(-v)
    }
}

/// Computes `hex_nat`.
pub(crate) fn hex_string(n: u32) -> (r: String)
    ensures
        r@ == hex_nat(n as nat),
    decreases n,
{
    if n < 16 {
        lit(digit_str(n))
    } else {
        let mut s = hex_string(n / 16);
        s.append(digit_str(n % 16));
        s
    }
}

/// Computes `hex4`.
pub(crate) fn hex4_string(a: u16) -> (r: String)
    ensures
        r@ == hex4(a),
{
    let x: u32 = a as u32;
    let mut s = lit(digit_str(x / 4096));
    s.append(digit_str((x / 256) % 16));
    s.append(digit_str((x / 16) % 16));
    s.append(digit_str(x % 16));
    s
}

/// The first line of an object file, which the symbol table may hold as a
/// name.
pub open spec fn obj_header() -> Seq<char> {
    "LC-3 OBJ FILE"@
}

/// Whether `s` begins with `p`.
pub open spec fn has_prefix(s: Seq<char>, p: Seq<char>) -> bool {
    p.len() <= s.len() && s.subrange(0, p.len() as int) == p
}

/// `s` without its leading white space.
pub open spec fn trim_start(s: Seq<char>) -> Seq<char>
    decreases s.len(),
{
    if s.len() > 0 && is_ws(s[0]) {
        trim_start(s.skip(1))
    } else {
        s
    }
}

/// `s` without its trailing white space.
pub open spec fn trim_end(s: Seq<char>) -> Seq<char>
    decreases s.len(),
{
    if s.len() > 0 && is_ws(s.last()) {
        trim_end(s.drop_last())
    } else {
        s
    }
}

/// `s` without the semicolons at its end.
pub open spec fn strip_semis(s: Seq<char>) -> Seq<char>
    decreases s.len(),
{
    if s.len() > 0 && s.last() == ';' {
        strip_semis(s.drop_last())
    } else {
        s
    }
}

/// Computes `is_ws`.
fn is_ws_char(c: char) -> (b: bool)
    ensures
        b == is_ws(c),
{
    let u = c as u32;
    (0x09 <= u && u <= 0x0D) || u == 0x20 || u == 0x85 || u == 0xA0 || u == 0x1680 || (0x2000 <= u && u
        <= 0x200A) || u == 0x2028 || u == 0x2029 || u == 0x202F || u == 0x205F || u == 0x3000
}

/// Whether a name begins with the object file header.
fn is_header_name(n: &String) -> (b: bool)
    ensures
        b == has_prefix(n@, obj_header()),
{
    let h = "LC-3 OBJ FILE";
    assert(obj_header() == h@);
    let hs = n.as_str();
    let hl = h.unicode_len();
    let nl = hs.unicode_len();
    if nl < hl {
        return false;
    }
    let mut i: usize = 0;
    while i < hl
        invariant
            i <= hl,
            hl == h@.len(),
            h@ == obj_header(),
            nl == hs@.len(),
            hs@ == n@,
            hl <= nl,
            forall|j: int| 0 <= j < i ==> hs@[j] == h@[j],
        decreases hl - i,
    {
        if hs.get_char(i) != h.get_char(i) {
            proof {
                assert(hs@.subrange(0, hl as int)[i as int] != h@[i as int]);
            }
            return false;
        }
        i = i + 1;
    }
    proof {
        assert(hs@.subrange(0, hl as int) =~= h@);
    }
    true
}

/// Computes `trim_start`.
fn trim_start_string(s: &String) -> (r: String)
    ensures
        r@ == trim_start(s@),
{
    let st = s.as_str();
    let n = st.unicode_len();
    let mut i: usize = 0;
    proof {
        assert(s@.skip(0) =~= s@);
    }
    while i < n && is_ws_char(st.get_char(i))
        invariant
            i <= n,
            n == st@.len(),
            st@ == s@,
            trim_start(s@) == trim_start(s@.skip(i as int)),
        decreases n - i,
    {
        proof {
            assert(s@.skip(i as int).skip(1) =~= s@.skip(i + 1));
        }
        i = i + 1;
    }
    let t = st.substring_char(i, n);
    proof {
        assert(t@ =~= s@.skip(i as int));
    }
    lit(t)
}

/// Computes `strip_semis(trim_end(trim_start(s)))`.
fn trim_and_strip(s: &String) -> (r: String)
    ensures
        r@ == strip_semis(trim_end(trim_start(s@))),
{
    let a = trim_start_string(s);
    let st = a.as_str();
    let mut j: usize = st.unicode_len();
    proof {
        assert(a@.subrange(0, j as int) =~= a@);
    }
    while j > 0 && is_ws_char(st.get_char(j - 1))
        invariant
            j <= st@.len(),
            st@ == a@,
            trim_end(a@) == trim_end(a@.subrange(0, j as int)),
        decreases j,
    {
        proof {
            assert(a@.subrange(0, j as int).drop_last() =~= a@.subrange(0, j - 1));
        }
        j = j - 1;
    }
    proof {
        assert(trim_end(a@.subrange(0, j as int)) == a@.subrange(0, j as int));
    }
    let ghost te = a@.subrange(0, j as int);
    let mut k: usize = j;
    while k > 0 && st.get_char(k - 1) == ';'
        invariant
            k <= j,
            j <= st@.len(),
            st@ == a@,
            te == a@.subrange(0, j as int),
            strip_semis(te) == strip_semis(a@.subrange(0, k as int)),
        decreases k,
    {
        proof {
            assert(a@.subrange(0, k as int).drop_last() =~= a@.subrange(0, k - 1));
        }
        k = k - 1;
    }
    let t = st.substring_char(0, k);
    lit(t)
}

/// A condition code as a comparison with zero.
pub open spec fn scc(cc: u8) -> Seq<char> {
    if cc == 0 {
        "false"@
    } else if cc == 1 {
        "> 0"@
    } else if cc == 2 {
        "== 0"@
    } else if cc == 3 {
        ">= 0"@
    } else if cc == 4 {
        "< 0"@
    } else if cc == 5 {
        "!= 0"@
    } else if cc == 6 {
        "<= 0"@
    } else {
        "true"@
    }
}

/// The relational operator of a condition code (for the codes that are
/// neither always nor never true).
pub open spec fn rel_op(cc: u8) -> Seq<char> {
    if cc == 1 {
        ">"@
    } else if cc == 2 {
        "=="@
    } else if cc == 3 {
        ">="@
    } else if cc == 4 {
        "<"@
    } else if cc == 5 {
        "!="@
    } else if cc == 6 {
        "<="@
    } else {
        Seq::empty()
    }
}

/// Whether the symbol table names address `a` with a name other than the
/// object file header.
pub open spec fn named(m: Map<u16, Seq<char>>, a: u16) -> bool {
    m.dom().contains(a) && !has_prefix(m[a], obj_header())
}

/// The C-like text of an expression; immediates that are named addresses
/// print as their names.
pub open spec fn sx(e: SExpr, m: Map<u16, Seq<char>>) -> Seq<char>
    decreases e, 1int,
{
    match e {
        SExpr::Register(r) => "var"@ + dec_nat(r as nat),
        SExpr::Immediate(v) => if named(m, v as u16) {
            m[v as u16]
        } else {
            dec_int(v as int)
        },
        SExpr::Add(l, r) => match *r {
            SExpr::Immediate(v) => if v < 0 {
                sx(*l, m) + " - "@ + dec_int(wneg(v))
            } else {
                sx(*l, m) + " + "@ + sx(*r, m)
            },
            _ => sx(*l, m) + " + "@ + sx(*r, m),
        },
        SExpr::Sub(l, r) => sx(*l, m) + " - "@ + sx(*r, m),
        SExpr::And(l, r) => sx(*l, m) + " & "@ + sx(*r, m),
        SExpr::Not(x) => "~"@ + sx(*x, m),
        SExpr::Neg(x) => "-"@ + sx(*x, m),
        SExpr::Load(x) => match *x {
            SExpr::Immediate(v) => if named(m, v as u16) {
                "*"@ + m[v as u16]
            } else {
                "*global_"@ + hex4(v as u16)
            },
            _ => "*("@ + sx(*x, m) + ")"@,
        },
        SExpr::Param(i) => "param"@ + dec_nat(i as nat),
        SExpr::Call(t, args) => match *t {
            SExpr::Immediate(v) => if m.dom().contains(v as u16) {
                m[v as u16] + "("@ + sargs(args, m) + ")"@
            } else {
                "func_"@ + hex4(v as u16) + "("@ + sargs(args, m) + ")"@
            },
            _ => sx(*t, m) + "("@ + sargs(args, m) + ")"@,
        },
        SExpr::LogicalAnd(l, c1, r, c2) => scond(*l, c1, m) + " && "@ + scond(*r, c2, m),
        SExpr::LogicalOr(l, c1, r, c2) => scond(*l, c1, m) + " || "@ + scond(*r, c2, m),
    }
}

/// The texts of expressions, separated by commas.
pub open spec fn sargs(s: Seq<SExpr>, m: Map<u16, Seq<char>>) -> Seq<char>
    decreases s, 0int,
{
    if s.len() == 0 {
        Seq::empty()
    } else if s.len() == 1 {
        sx(s[0], m)
    } else {
        sargs(s.drop_last(), m) + ", "@ + sx(s[s.len() - 1], m)
    }
}

/// The text of the condition "`e` compared with zero by `cc`": a relation
/// between the operands where `e` is a difference (or a sum with a negated or
/// negative operand), the parts of a compound condition joined, and `e`
/// followed by the comparison otherwise.
pub open spec fn scond(e: SExpr, cc: u8, m: Map<u16, Seq<char>>) -> Seq<char>
    decreases e, 2int,
{
    let plain = sx(e, m) + " "@ + scc(cc);
    let op = rel_op(cc);
    match e {
        SExpr::LogicalAnd(l, c1, r, c2) => scond(*l, c1, m) + " && "@ + scond(*r, c2, m),
        SExpr::LogicalOr(l, c1, r, c2) => scond(*l, c1, m) + " || "@ + scond(*r, c2, m),
        SExpr::Sub(l, r) => if 1 <= cc <= 6 {
            sx(*l, m) + " "@ + op + " "@ + sx(*r, m)
        } else {
            plain
        },
        SExpr::Add(l, r) => match *r {
            SExpr::Neg(x) => if 1 <= cc <= 6 {
                sx(*l, m) + " "@ + op + " "@ + sx(*x, m)
            } else {
                plain
            },
            SExpr::Immediate(v) => if 1 <= cc <= 6 && v < 0 {
                sx(*l, m) + " "@ + op + " "@ + dec_int(wneg(v))
            } else {
                plain
            },
            _ => plain,
        },
        _ => plain,
    }
}

/// Computes `scc`.
fn scc_str(cc: u8) -> (r: &'static str)
    ensures
        r@ == scc(cc),
{
    if cc == 0 {
        "false"
    } else if cc == 1 {
        "> 0"
    } else if cc == 2 {
        "== 0"
    } else if cc == 3 {
        ">= 0"
    } else if cc == 4 {
        "< 0"
    } else if cc == 5 {
        "!= 0"
    } else if cc == 6 {
        "<= 0"
    } else {
        "true"
    }
}

/// Computes `rel_op`.
fn rel_op_str(cc: u8) -> (r: &'static str)
    requires
        1 <= cc <= 6,
    ensures
        r@ == rel_op(cc),
{
    if cc == 1 {
        ">"
    } else if cc == 2 {
        "=="
    } else if cc == 3 {
        ">="
    } else if cc == 4 {
        "<"
    } else if cc == 5 {
        "!="
    } else {
        "<="
    }
}

/// `a`, the separator `sep`, then `b`.
pub(crate) fn join3(a: String, sep: &str, b: String) -> (r: String)
    ensures
        r@ == a@ + sep@ + b@,
{
    let mut s = a;
    s.append(sep);
    s.append(b.as_str());
    s
}

/// `pre`, `body`, then `post`.
fn wrap(pre: &str, body: String, post: &str) -> (r: String)
    ensures
        r@ == pre@ + body@ + post@,
{
    let mut s = lit(pre);
    s.append(body.as_str());
    s.append(post);
    s
}

/// `p` followed by `body`.
pub(crate) fn pre(p: &str, body: String) -> (r: String)
    ensures
        r@ == p@ + body@,
{
    let mut s = lit(p);
    s.append(body.as_str());
    s
}

/// `body` followed by `p`.
pub(crate) fn post(body: String, p: &str) -> (r: String)
    ensures
        r@ == body@ + p@,
{
    let mut s = body;
    s.append(p);
    s
}

/// The name of address `a` in the symbol table.
fn lookup(symbols: &AddrMap<String>, a: u16) -> (r: Option<&String>)
    requires
        symbols.wf(),
    ensures
        r is Some <==> name_map(symbols.map()).dom().contains(a),
        r matches Some(n) ==> n@ == name_map(symbols.map())[a],
{
    symbols.get(a)
}

/// The name of address `a` where `named` holds of it.
fn named_lookup(symbols: &AddrMap<String>, a: u16) -> (r: Option<&String>)
    requires
        symbols.wf(),
    ensures
        r is Some <==> named(name_map(symbols.map()), a),
        r matches Some(n) ==> n@ == name_map(symbols.map())[a],
{
    match symbols.get(a) {
        Some(n) => if is_header_name(n) {
            None
        } else {
            Some(n)
        },
        None => None,
    }
}

/// The C-like text of an expression (see `sx`).
fn stringify_expr(expr: &Expr, symbols: &AddrMap<String>) -> (r: String)
    requires
        symbols.wf(),
    ensures
        r@ == sx(expr@, name_map(symbols.map())),
    decreases expr, 1int,
{
    match expr {
        Expr::Register(r) => pre("var", dec_string(*r as u32)),
        Expr::Immediate(val) => {
            let a = *val as u16;
            match named_lookup(symbols, a) {
                Some(name) => name.clone(),
                None => dec_i16(*val),
            }
        },
        Expr::Add(lhs, rhs) => {
            let l = stringify_expr(lhs, symbols);
            match &**rhs {
                Expr::Immediate(val) => {
                    proof {
                        assert((**rhs)@ == SExpr::Immediate(*val));
                    }
                    if *val < 0 {
                        return join3(l, " - ", dec_wneg(*val));
                    }
                },
                _ => {},
            }
            join3(l, " + ", stringify_expr(rhs, symbols))
        },
        Expr::Sub(lhs, rhs) => join3(stringify_expr(lhs, symbols), " - ", stringify_expr(rhs, symbols)),
        Expr::And(lhs, rhs) => join3(stringify_expr(lhs, symbols), " & ", stringify_expr(rhs, symbols)),
        Expr::Not(e) => pre("~", stringify_expr(e, symbols)),
        Expr::Neg(e) => pre("-", stringify_expr(e, symbols)),
        Expr::Load(e) => match &**e {
            Expr::Immediate(addr) => {
                proof {
                    assert((**e)@ == SExpr::Immediate(*addr));
                }
                let a = *addr as u16;
                match named_lookup(symbols, a) {
                    Some(name) => pre("*", name.clone()),
                    None => pre("*global_", hex4_string(a)),
                }
            },
            _ => wrap("*(", stringify_expr(e, symbols), ")"),
        },
        Expr::Param(idx) => pre("param", dec_string(*idx as u32)),
        Expr::Call(target, args) => {
            let a = stringify_args(args, symbols);
            match &**target {
                Expr::Immediate(v) => {
                    proof {
                        assert((**target)@ == SExpr::Immediate(*v));
                    }
                    let ad = *v as u16;
                    match lookup(symbols, ad) {
                        Some(name) => join3(name.clone(), "(", post(a, ")")),
                        None => join3(pre("func_", hex4_string(ad)), "(", post(a, ")")),
                    }
                },
                _ => join3(stringify_expr(target, symbols), "(", post(a, ")")),
            }
        },
        Expr::LogicalAnd(lhs, lhs_cc, rhs, rhs_cc) => join3(
            stringify_condition(lhs, *lhs_cc, symbols),
            " && ",
            stringify_condition(rhs, *rhs_cc, symbols),
        ),
        Expr::LogicalOr(lhs, lhs_cc, rhs, rhs_cc) => join3(
            stringify_condition(lhs, *lhs_cc, symbols),
            " || ",
            stringify_condition(rhs, *rhs_cc, symbols),
        ),
    }
}

/// The texts of call arguments separated by commas (see `sargs`).
fn stringify_args(args: &Vec<Expr>, symbols: &AddrMap<String>) -> (r: String)
    requires
        symbols.wf(),
    ensures
        r@ == sargs(exprs_view(args@), name_map(symbols.map())),
    decreases args, 0int,
{
    let ghost m = name_map(symbols.map());
    let ghost sv = exprs_view(args@);
    proof {
        lemma_exprs_view(args@);
    }
    let mut out = String::new();
    let mut i: usize = 0;
    while i < args.len()
        invariant
            i <= args@.len(),
            symbols.wf(),
            m == name_map(symbols.map()),
            sv == exprs_view(args@),
            sv.len() == args@.len(),
            forall|q: int| 0 <= q < args@.len() ==> #[trigger] sv[q] == args@[q]@,
            out@ == sargs(sv.subrange(0, i as int), m),
        decreases args@.len() - i,
    {
        proof {
            assert(decreases_to!(args => args[i as int]));
        }
        let x = stringify_expr(&args[i], symbols);
        if i > 0 {
            out.append(", ");
        }
        out.append(x.as_str());
        proof {
            let t = sv.subrange(0, i + 1);
            assert(t.drop_last() =~= sv.subrange(0, i as int));
            assert(t[t.len() - 1] == sv[i as int]);
            if i == 0 {
                assert(sv.subrange(0, 0) =~= Seq::<SExpr>::empty());
                assert(out@ =~= x@);
            }
        }
        i = i + 1;
    }
    proof {
        assert(sv.subrange(0, i as int) =~= sv);
    }
    out
}

/// The text of a condition (see `scond`).
fn stringify_condition(expr: &Expr, cc: u8, symbols: &AddrMap<String>) -> (r: String)
    requires
        symbols.wf(),
    ensures
        r@ == scond(expr@, cc, name_map(symbols.map())),
    decreases expr, 2int,
{
    let in_range = 1 <= cc && cc <= 6;
    match expr {
        Expr::LogicalAnd(lhs, lhs_cc, rhs, rhs_cc) => {
            return join3(
                stringify_condition(lhs, *lhs_cc, symbols),
                " && ",
                stringify_condition(rhs, *rhs_cc, symbols),
            );
        },
        Expr::LogicalOr(lhs, lhs_cc, rhs, rhs_cc) => {
            return join3(
                stringify_condition(lhs, *lhs_cc, symbols),
                " || ",
                stringify_condition(rhs, *rhs_cc, symbols),
            );
        },
        Expr::Sub(l, r) => {
            if in_range {
                let op = rel_op_str(cc);
                return join3(join3(stringify_expr(l, symbols), " ", lit(op)), " ", stringify_expr(r, symbols));
            }
        },
        Expr::Add(l, r) => match &**r {
            Expr::Neg(x) => {
                proof {
                    assert((**r)@ == SExpr::Neg(Box::new((**x)@)));
                }
                if in_range {
                    let op = rel_op_str(cc);
                    return join3(join3(stringify_expr(l, symbols), " ", lit(op)), " ", stringify_expr(x, symbols));
                }
            },
            Expr::Immediate(v) => {
                proof {
                    assert((**r)@ == SExpr::Immediate(*v));
                }
                if in_range && *v < 0 {
                    let op = rel_op_str(cc);
                    return join3(join3(stringify_expr(l, symbols), " ", lit(op)), " ", dec_wneg(*v));
                }
            },
            _ => {},
        },
        _ => {},
    }
    join3(stringify_expr(expr, symbols), " ", lit(scc_str(cc)))
}

/// One level of indentation.
pub open spec fn pad() -> Seq<char> {
    "    "@
}

/// Whether assigning `e` to register `reg` adds one to it (`Some(true)`) or
/// takes one from it (`Some(false)`).
pub open spec fn step_of(reg: u8, e: SExpr) -> Option<bool> {
    match e {
        SExpr::Add(l, r) => match (*l, *r) {
            (SExpr::Register(x), SExpr::Immediate(v)) => if x == reg && v == 1 {
                Some(true)
            } else if x == reg && v == -1 {
                Some(false)
            } else {
                None
            },
            (SExpr::Immediate(v), SExpr::Register(x)) => if x == reg && v == 1 {
                Some(true)
            } else if x == reg && v == -1 {
                Some(false)
            } else {
                None
            },
            _ => None,
        },
        SExpr::Sub(l, r) => match (*l, *r) {
            (SExpr::Register(x), SExpr::Immediate(v)) => if x == reg && v == 1 {
                Some(false)
            } else {
                None
            },
            _ => None,
        },
        _ => None,
    }
}

/// The text of an optional condition: `true` where there is none.
pub open spec fn cond_text(c: Option<SExpr>, cc: u8, m: Map<u16, Seq<char>>) -> Seq<char> {
    match c {
        Some(e) => scond(e, cc, m),
        None => "true"@,
    }
}

/// `for` loop headers hold their initialisation and increment without the
/// surrounding white space and final semicolons.
pub open spec fn header_part(s: Seq<char>) -> Seq<char> {
    strip_semis(trim_end(trim_start(s)))
}

/// The C-like text of a statement indented by `sp` (labels are not
/// indented).
pub open spec fn sstmt(l: SLin, sp: Seq<char>, m: Map<u16, Seq<char>>) -> Seq<char>
    decreases l, 1int,
{
    let inner = sp + pad();
    match l {
        SLin::Assign(reg, e) => match step_of(reg, e) {
            Some(true) => sp + "var"@ + dec_nat(reg as nat) + "++;"@,
            Some(false) => sp + "var"@ + dec_nat(reg as nat) + "--;"@,
            None => sp + "var"@ + dec_nat(reg as nat) + " = "@ + sx(e, m) + ";"@,
        },
        SLin::Store(a, v) => match a {
            SExpr::Add(_, _) => sp + "*("@ + sx(a, m) + ") = "@ + sx(v, m) + ";"@,
            SExpr::Sub(_, _) => sp + "*("@ + sx(a, m) + ") = "@ + sx(v, m) + ";"@,
            SExpr::Immediate(i) => if m.dom().contains(i as u16) {
                sp + "*"@ + m[i as u16] + " = "@ + sx(v, m) + ";"@
            } else {
                sp + "*"@ + sx(a, m) + " = "@ + sx(v, m) + ";"@
            },
            _ => sp + "*"@ + sx(a, m) + " = "@ + sx(v, m) + ";"@,
        },
        SLin::Goto(c, cc, t) => if cc == 7 {
            sp + "goto "@ + "label_"@ + hex4(t) + ";"@
        } else {
            sp + "if ("@ + cond_text(c, cc, m) + ") goto "@ + "label_"@ + hex4(t) + ";"@
        },
        SLin::Call(t, args) => match t {
            SExpr::Immediate(v) => if m.dom().contains(v as u16) {
                sp + m[v as u16] + "("@ + sargs(args, m) + ");"@
            } else {
                sp + "func_"@ + hex4(v as u16) + "("@ + sargs(args, m) + ");"@
            },
            _ => sp + sx(t, m) + "("@ + sargs(args, m) + ");"@,
        },
        SLin::Return(val) => match val {
            Some(v) => sp + "return "@ + sx(v, m) + ";"@,
            None => sp + "return;"@,
        },
        SLin::Trap(v) => sp + "trap(0x"@ + hex_nat(v as nat) + ");"@,
        SLin::IndirectGoto(e) => sp + "goto *("@ + sx(e, m) + ");"@,
        SLin::DoWhile(c, cc, b) => sp + "do {\n"@ + slines(b, inner, m) + sp + "} while ("@ + cond_text(c, cc, m)
            + ");"@,
        SLin::While(c, cc, b) => sp + "while ("@ + cond_text(c, cc, m) + ") {\n"@ + slines(b, inner, m) + sp
            + "}"@,
        SLin::For(i, c, cc, n, b) => sp + "for ("@ + header_part(sstmt(*i, Seq::empty(), m)) + "; "@ + cond_text(
            c,
            cc,
            m,
        ) + "; "@ + header_part(sstmt(*n, Seq::empty(), m)) + ") {\n"@ + slines(b, inner, m) + sp + "}"@,
        SLin::If(c, cc, t, f) => {
            let head = sp + "if ("@ + cond_text(c, cc, m) + ") {\n"@ + slines(t, inner, m) + sp + "}"@;
            match f {
                None => head,
                Some(fs) => if fs.len() == 1 && fs[0] is If {
                    head + " else "@ + trim_start(sstmt(fs[0], sp, m))
                } else {
                    head + " else {\n"@ + slines(fs, inner, m) + sp + "}"@
                },
            }
        },
        SLin::Break => sp + "break;"@,
        SLin::Continue => sp + "continue;"@,
        SLin::Label(a) => "label_"@ + hex4(a) + ":"@,
    }
}

/// The texts of statements indented by `sp`, each ended by a newline.
pub open spec fn slines(ss: Seq<SLin>, sp: Seq<char>, m: Map<u16, Seq<char>>) -> Seq<char>
    decreases ss, 0int,
{
    if ss.len() == 0 {
        Seq::empty()
    } else {
        slines(ss.drop_last(), sp, m) + sstmt(ss[ss.len() - 1], sp, m) + "\n"@
    }
}

/// Computes `step_of`.
fn step_kind(reg: u8, e: &Expr) -> (r: Option<bool>)
    ensures
        r == step_of(reg, e@),
{
    match e {
        Expr::Add(l, r) => {
            proof {
                assert(e@ == SExpr::Add(Box::new((**l)@), Box::new((**r)@)));
            }
            match (&**l, &**r) {
                (Expr::Register(x), Expr::Immediate(v)) => {
                    proof {
                        assert((**l)@ == SExpr::Register(*x));
                        assert((**r)@ == SExpr::Immediate(*v));
                    }
                    if *x == reg && *v == 1 {
                        Some(true)
                    } else if *x == reg && *v == -1 {
                        Some(false)
                    } else {
                        None
                    }
                },
                (Expr::Immediate(v), Expr::Register(x)) => {
                    proof {
                        assert((**l)@ == SExpr::Immediate(*v));
                        assert((**r)@ == SExpr::Register(*x));
                    }
                    if *x == reg && *v == 1 {
                        Some(true)
                    } else if *x == reg && *v == -1 {
                        Some(false)
                    } else {
                        None
                    }
                },
                _ => None,
            }
        },
        Expr::Sub(l, r) => {
            proof {
                assert(e@ == SExpr::Sub(Box::new((**l)@), Box::new((**r)@)));
            }
            match (&**l, &**r) {
                (Expr::Register(x), Expr::Immediate(v)) => {
                    proof {
                        assert((**l)@ == SExpr::Register(*x));
                        assert((**r)@ == SExpr::Immediate(*v));
                    }
                    if *x == reg && *v == 1 {
                        Some(false)
                    } else {
                        None
                    }
                },
                _ => None,
            }
        },
        _ => None,
    }
}

/// Computes `cond_text`.
fn cond_string(c: &Option<Expr>, cc: u8, symbols: &AddrMap<String>) -> (r: String)
    requires
        symbols.wf(),
    ensures
        r@ == cond_text(opt_view(*c), cc, name_map(symbols.map())),
{
    match c {
        Some(e) => stringify_condition(e, cc, symbols),
        None => lit("true"),
    }
}

/// Whether a statement is an `If`.
fn is_if(l: &LinearStmt) -> (b: bool)
    ensures
        b == (l@ is If),
{
    match l {
        LinearStmt::If(_, _, _, _) => true,
        _ => false,
    }
}

/// The text of a statement indented by `sp` (see `sstmt`).
#[verifier::rlimit(40)]
fn stringify_stmt(stmt: &LinearStmt, symbols: &AddrMap<String>, sp: &str) -> (r: String)
    requires
        symbols.wf(),
    ensures
        r@ == sstmt(stmt@, sp@, name_map(symbols.map())),
    decreases stmt, 1int,
{
    let inner = post(lit(sp), "    ");
    let mut s = lit(sp);
    match stmt {
        LinearStmt::Assign(reg, expr) => {
            s.append("var");
            let d = dec_string(*reg as u32);
            s.append(d.as_str());
            match step_kind(*reg, expr) {
                Some(true) => {
                    s.append("++;");
                },
                Some(false) => {
                    s.append("--;");
                },
                None => {
                    s.append(" = ");
                    let e = stringify_expr(expr, symbols);
                    s.append(e.as_str());
                    s.append(";");
                },
            }
            s
        },
        LinearStmt::Store(addr, val) => {
            let a = stringify_expr(addr, symbols);
            let v = stringify_expr(val, symbols);
            match addr {
                Expr::Add(_, _) => {
                    s.append("*(");
                    s.append(a.as_str());
                    s.append(") = ");
                },
                Expr::Sub(_, _) => {
                    s.append("*(");
                    s.append(a.as_str());
                    s.append(") = ");
                },
                Expr::Immediate(imm) => {
                    proof {
                        assert(addr@ == SExpr::Immediate(*imm));
                    }
                    match lookup(symbols, *imm as u16) {
                        Some(name) => {
                            s.append("*");
                            s.append(name.as_str());
                            s.append(" = ");
                        },
                        None => {
                            s.append("*");
                            s.append(a.as_str());
                            s.append(" = ");
                        },
                    }
                },
                _ => {
                    s.append("*");
                    s.append(a.as_str());
                    s.append(" = ");
                },
            }
            s.append(v.as_str());
            s.append(";");
            s
        },
        LinearStmt::Goto(cond, cc, target) => {
            if *cc == 7 {
                s.append("goto ");
            } else {
                s.append("if (");
                let c = cond_string(cond, *cc, symbols);
                s.append(c.as_str());
                s.append(") goto ");
            }
            s.append("label_");
            let h = hex4_string(*target);
            s.append(h.as_str());
            s.append(";");
            s
        },
        LinearStmt::Call(expr, args) => {
            let a = stringify_args(args, symbols);
            match expr {
                Expr::Immediate(v) => match lookup(symbols, *v as u16) {
                    Some(name) => {
                        proof {
                            assert(expr@ == SExpr::Immediate(*v));
                        }
                        s.append(name.as_str());
                    },
                    None => {
                        proof {
                            assert(expr@ == SExpr::Immediate(*v));
                        }
                        s.append("func_");
                        let h = hex4_string(*v as u16);
                        s.append(h.as_str());
                    },
                },
                _ => {
                    let t = stringify_expr(expr, symbols);
                    s.append(t.as_str());
                },
            }
            s.append("(");
            s.append(a.as_str());
            s.append(");");
            s
        },
        LinearStmt::Return(val) => {
            match val {
                Some(v) => {
                    s.append("return ");
                    let e = stringify_expr(v, symbols);
                    s.append(e.as_str());
                    s.append(";");
                },
                None => {
                    s.append("return;");
                },
            }
            s
        },
        LinearStmt::Trap(v) => {
            s.append("trap(0x");
            let h = hex_string(*v as u32);
            s.append(h.as_str());
            s.append(");");
            s
        },
        LinearStmt::IndirectGoto(e) => {
            s.append("goto *(");
            let t = stringify_expr(e, symbols);
            s.append(t.as_str());
            s.append(");");
            s
        },
        LinearStmt::DoWhile(cond, cc, body) => {
            s.append("do {\n");
            let b = stringify_lines(body, symbols, inner.as_str());
            s.append(b.as_str());
            s.append(sp);
            s.append("} while (");
            let c = cond_string(cond, *cc, symbols);
            s.append(c.as_str());
            s.append(");");
            s
        },
        LinearStmt::While(cond, cc, body) => {
            s.append("while (");
            let c = cond_string(cond, *cc, symbols);
            s.append(c.as_str());
            s.append(") {\n");
            let b = stringify_lines(body, symbols, inner.as_str());
            s.append(b.as_str());
            s.append(sp);
            s.append("}");
            s
        },
        LinearStmt::For(init, cond, cc, incr, body) => {
            proof {
                reveal_strlit("");
                assert(""@ =~= Seq::<char>::empty());
            }
            let i0 = stringify_stmt(init, symbols, "");
            let i1 = trim_and_strip(&i0);
            let n0 = stringify_stmt(incr, symbols, "");
            let n1 = trim_and_strip(&n0);
            s.append("for (");
            s.append(i1.as_str());
            s.append("; ");
            let c = cond_string(cond, *cc, symbols);
            s.append(c.as_str());
            s.append("; ");
            s.append(n1.as_str());
            s.append(") {\n");
            let b = stringify_lines(body, symbols, inner.as_str());
            s.append(b.as_str());
            s.append(sp);
            s.append("}");
            s
        },
        LinearStmt::If(cond, cc, tb, fb) => {
            s.append("if (");
            let c = cond_string(cond, *cc, symbols);
            s.append(c.as_str());
            s.append(") {\n");
            let b = stringify_lines(tb, symbols, inner.as_str());
            s.append(b.as_str());
            s.append(sp);
            s.append("}");
            match fb {
                None => {},
                Some(fs) => {
                    proof {
                        lemma_lins_view(fs@);
                    }
                    if fs.len() == 1 && is_if(&fs[0]) {
                        proof {
                            assert(decreases_to!(fs => fs[0]));
                        }
                        let e = stringify_stmt(&fs[0], symbols, sp);
                        s.append(" else ");
                        let t = trim_start_string(&e);
                        s.append(t.as_str());
                    } else {
                        s.append(" else {\n");
                        let f = stringify_lines(fs, symbols, inner.as_str());
                        s.append(f.as_str());
                        s.append(sp);
                        s.append("}");
                    }
                },
            }
            s
        },
        LinearStmt::Break => {
            s.append("break;");
            s
        },
        LinearStmt::Continue => {
            s.append("continue;");
            s
        },
        LinearStmt::Label(addr) => {
            let h = hex4_string(*addr);
            post(pre("label_", h), ":")
        },
    }
}

/// The texts of statements indented by `sp`, each ended by a newline (see
/// `slines`).
fn stringify_lines(v: &Vec<LinearStmt>, symbols: &AddrMap<String>, sp: &str) -> (r: String)
    requires
        symbols.wf(),
    ensures
        r@ == slines(lins_view(v@), sp@, name_map(symbols.map())),
    decreases v, 0int,
{
    let ghost m = name_map(symbols.map());
    let ghost sv = lins_view(v@);
    proof {
        lemma_lins_view(v@);
    }
    let mut out = String::new();
    let mut i: usize = 0;
    while i < v.len()
        invariant
            i <= v@.len(),
            symbols.wf(),
            m == name_map(symbols.map()),
            sv == lins_view(v@),
            sv.len() == v@.len(),
            forall|q: int| 0 <= q < v@.len() ==> #[trigger] sv[q] == lin_view(v@[q]),
            out@ == slines(sv.subrange(0, i as int), sp@, m),
        decreases v@.len() - i,
    {
        proof {
            assert(decreases_to!(v => v[i as int]));
        }
        let x = stringify_stmt(&v[i], symbols, sp);
        out.append(x.as_str());
        out.append("\n");
        proof {
            let t = sv.subrange(0, i + 1);
            assert(t.drop_last() =~= sv.subrange(0, i as int));
            assert(t[t.len() - 1] == sv[i as int]);
        }
        i = i + 1;
    }
    proof {
        assert(sv.subrange(0, i as int) =~= sv);
    }
    out
}

/// The C-like program text of the statements, one statement (with its
/// nested bodies) after another, each ended by a newline.
pub fn generate_code(stmts: &Vec<LinearStmt>, symbols: &AddrMap<String>) -> (r: String)
    requires
        symbols.wf(),
    ensures
        r@ == slines(lins_view(stmts@), Seq::empty(), name_map(symbols.map())),
{
    proof {
        reveal_strlit("");
        assert(""@ =~= Seq::<char>::empty());
    }
    stringify_lines(stmts, symbols, "")
}

/// Each operator prints as its C operator between (or before) the texts of
/// its operands: `&` for `And`, `-` for `Sub`, `+` for `Add` (of an operand
/// that is not a negative immediate), `~` for `Not` and `-` for `Neg`;
/// adding a negative immediate prints as subtracting its magnitude, a load
/// through a computed address as `*(..)`, register `i` as `var<i>` and
/// parameter `i` as `param<i>`.
pub proof fn law_operators_print(l: SExpr, r: SExpr, m: Map<u16, Seq<char>>)
    ensures
        sx(SExpr::And(Box::new(l), Box::new(r)), m) == sx(l, m) + " & "@ + sx(r, m),
        sx(SExpr::Sub(Box::new(l), Box::new(r)), m) == sx(l, m) + " - "@ + sx(r, m),
        !(r matches SExpr::Immediate(v) && v < 0) ==> sx(SExpr::Add(Box::new(l), Box::new(r)), m) == sx(l, m) + " + "@ + sx(r, m),
        sx(SExpr::Not(Box::new(l)), m) == "~"@ + sx(l, m),
        sx(SExpr::Neg(Box::new(l)), m) == "-"@ + sx(l, m),
        forall|v: i16| v < 0 ==> #[trigger] sx(SExpr::Add(Box::new(l), Box::new(SExpr::Immediate(v))), m) == sx(l, m) + " - "@ + dec_int(wneg(v)),
        !(l is Immediate) ==> sx(SExpr::Load(Box::new(l)), m) == "*("@ + sx(l, m) + ")"@,
        forall|i: u8| #[trigger] sx(SExpr::Register(i), m) == "var"@ + dec_nat(i as nat),
        forall|i: u8| #[trigger] sx(SExpr::Param(i), m) == "param"@ + dec_nat(i as nat),
{
}

} // verus!
