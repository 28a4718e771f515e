use lc3_decompiler::addr_map::AddrMap;
use lc3_decompiler::cfg::{compute_dominators, compute_natural_loops, create_basic_blocks, BasicBlock, NaturalLoop};
use lc3_decompiler::conditionals::merge_compound_conditions;
use lc3_decompiler::control_flow::{identify_conditionals, identify_loops, ConditionalType};
use lc3_decompiler::codegen::generate_code;
use lc3_decompiler::disasm::{
    disassemble, gen_sections, identify_code_data, object_well_formed, parse_object, text_well_formed,
};
use lc3_decompiler::ir::{collapse_expressions, Expr, IRStmt, IRStmtKind};
use lc3_decompiler::lc3::{Instr, Nucleus, Operand};
use lc3_decompiler::linear::{
    negate_cc, negate_logical_expr, remove_orphaned_labels, structure_if_goto_patterns, LinearStmt,
};
use lc3_decompiler::passes::propagate_variables;
use lc3_decompiler::stack::process_caller;

fn reg(r: u8) -> Expr {
    Expr::Register(r)
}

fn imm(v: i16) -> Expr {
    Expr::Immediate(v)
}

fn bx(e: Expr) -> Box<Expr> {
    Box::new(e)
}

fn stmt(addr: u16, kind: IRStmtKind) -> IRStmt {
    IRStmt { addr, kind }
}

fn symbols(entries: &[(u16, &str)]) -> AddrMap<String> {
    let mut m = AddrMap::new();
    for (a, n) in entries {
        m.insert(*a, n.to_string());
    }
    m
}

fn code(stmts: Vec<LinearStmt>, syms: &AddrMap<String>) -> String {
    generate_code(&stmts, syms)
}

const OBJ: &str = "LC-3 OBJ FILE\n\n.TEXT\n3000\n3\n5020\n1021\nF025\n\n.SYMBOL\nADDR | EXT | LABEL\n3001 | 0 | LOOP";

#[test]
fn gen_sections_splits_text_and_symbols() {
    assert!(object_well_formed(OBJ));
    let (text, syms) = gen_sections(OBJ);
    assert_eq!(text, vec!["3000", "3", "5020", "1021", "F025"]);
    assert_eq!(syms.len(), 1);
    assert_eq!(syms.get(0x3001).map(|s| s.as_str()), Some("LOOP"));
    assert!(syms.get(0x3000).is_none());
}

#[test]
fn gen_sections_rejects_missing_sections() {
    assert!(!object_well_formed("LC-3 OBJ FILE\n\n.TEXT\n3000"));
}

#[test]
fn gen_sections_rejects_bad_symbol_lines() {
    assert!(!object_well_formed("LC-3 OBJ FILE\n\n.TEXT\n3000\n0\n\n.SYMBOL\nADDR\nXYZ | 0 | A"));
    assert!(!object_well_formed("LC-3 OBJ FILE\n\n.TEXT\n3000\n0\n\n.SYMBOL\nADDR\n3000 | 0"));
}

#[test]
fn disassemble_decodes_each_word() {
    let (text, syms) = gen_sections(OBJ);
    let (dis, origs) = disassemble(&text, &syms);
    assert_eq!(origs, vec![0x3000]);
    assert_eq!(dis.len(), 3);
    let l0 = dis.get(0x3000).unwrap();
    assert_eq!(l0.nucleus, Nucleus::Instr(Instr::And(0, 0, Operand::Imm(0))));
    assert!(!l0.labeled);
    let l1 = dis.get(0x3001).unwrap();
    assert_eq!(l1.nucleus, Nucleus::Instr(Instr::Add(0, 0, Operand::Imm(1))));
    assert!(l1.labeled);
    assert_eq!(dis.get(0x3002).unwrap().nucleus, Nucleus::Instr(Instr::Halt));
}

#[test]
fn disassemble_reads_low_words_and_undecodable_words_as_data() {
    let text: Vec<String> = vec!["3000", "2", "0005", "D000"].into_iter().map(String::from).collect();
    let (dis, _) = disassemble(&text, &AddrMap::new());
    assert_eq!(dis.get(0x3000).unwrap().nucleus, Nucleus::Directive);
    assert_eq!(dis.get(0x3001).unwrap().nucleus, Nucleus::Directive);
}

#[test]
fn disassemble_rejects_malformed_sections() {
    let bad_start: Vec<String> = vec!["zz", "1", "1021"].into_iter().map(String::from).collect();
    assert!(!text_well_formed(&bad_start));
    let short: Vec<String> = vec!["3000", "2", "1021"].into_iter().map(String::from).collect();
    assert!(!text_well_formed(&short));
    let no_count: Vec<String> = vec!["3000"].into_iter().map(String::from).collect();
    assert!(!text_well_formed(&no_count));
}

#[test]
fn identify_code_data_finds_called_functions() {
    // 3000: JSR #1 (to 3002); 3001: HALT; 3002: RET
    let text: Vec<String> = vec!["3000", "3", "4801", "F025", "C1C0"].into_iter().map(String::from).collect();
    let (dis, origs) = disassemble(&text, &AddrMap::new());
    assert_eq!(dis.get(0x3000).unwrap().nucleus, Nucleus::Instr(Instr::Jsr(1)));
    assert_eq!(dis.get(0x3002).unwrap().nucleus, Nucleus::Instr(Instr::Ret));
    assert_eq!(identify_code_data(&dis, origs), vec![0x3000, 0x3002]);
}

#[test]
fn identify_code_data_starts_at_3000_alone() {
    let (text, syms) = gen_sections(OBJ);
    let (dis, origs) = disassemble(&text, &syms);
    assert_eq!(identify_code_data(&dis, origs), vec![0x3000]);
}

#[test]
fn generate_code_matches_the_min_index_example() {
    let syms = symbols(&[(0x3010, "ARRAY"), (0x3011, "LENGTH"), (0x3012, "RESULT")]);
    let body = vec![
        LinearStmt::Assign(3, Expr::Load(bx(Expr::Add(bx(Expr::Load(bx(imm(0x3010)))), bx(reg(2)))))),
        LinearStmt::If(
            Some(Expr::Sub(bx(reg(3)), bx(reg(1)))),
            4,
            vec![LinearStmt::Assign(1, reg(3)), LinearStmt::Assign(0, reg(2))],
            None,
        ),
    ];
    let stmts = vec![
        LinearStmt::Assign(0, imm(0)),
        LinearStmt::Assign(1, Expr::Load(bx(Expr::Load(bx(imm(0x3010)))))),
        LinearStmt::For(
            Box::new(LinearStmt::Assign(2, imm(1))),
            Some(Expr::Sub(bx(reg(2)), bx(Expr::Load(bx(imm(0x3011)))))),
            4,
            Box::new(LinearStmt::Assign(2, Expr::Add(bx(reg(2)), bx(imm(1))))),
            body,
        ),
        LinearStmt::Store(Expr::Load(bx(imm(0x3012))), reg(0)),
    ];
    let expected = "var0 = 0;\n\
var1 = *(*ARRAY);\n\
for (var2 = 1; var2 < *LENGTH; var2++) {\n\
\x20   var3 = *(*ARRAY + var2);\n\
\x20   if (var3 < var1) {\n\
\x20       var1 = var3;\n\
\x20       var0 = var2;\n\
\x20   }\n\
}\n\
**RESULT = var0;\n";
    assert_eq!(code(stmts, &syms), expected);
}

#[test]
fn generate_code_writes_increments_and_negative_addends() {
    let syms = AddrMap::new();
    let stmts = vec![
        LinearStmt::Assign(1, Expr::Add(bx(imm(1)), bx(reg(1)))),
        LinearStmt::Assign(1, Expr::Add(bx(reg(1)), bx(imm(-1)))),
        LinearStmt::Assign(2, Expr::Sub(bx(reg(2)), bx(imm(1)))),
        LinearStmt::Assign(1, Expr::Add(bx(reg(1)), bx(imm(-5)))),
        LinearStmt::Assign(1, Expr::Add(bx(reg(2)), bx(imm(1)))),
        LinearStmt::Assign(1, Expr::Add(bx(reg(1)), bx(imm(i16::MIN)))),
    ];
    assert_eq!(
        code(stmts, &syms),
        "var1++;\nvar1--;\nvar2--;\nvar1 = var1 - 5;\nvar1 = var2 + 1;\nvar1 = var1 - -32768;\n"
    );
}

#[test]
fn generate_code_names_addresses_except_the_file_header() {
    let syms = symbols(&[(0x3000, "LC-3 OBJ FILE header"), (0x3001, "COUNT"), (0x4000, "MAIN")]);
    let stmts = vec![
        LinearStmt::Assign(0, imm(0x3000)),
        LinearStmt::Assign(0, Expr::Load(bx(imm(0x3000)))),
        LinearStmt::Assign(0, imm(0x3001)),
        LinearStmt::Assign(0, Expr::Load(bx(imm(0x3002)))),
        LinearStmt::Store(imm(0x3001), reg(0)),
        LinearStmt::Store(Expr::Add(bx(reg(6)), bx(imm(2))), reg(1)),
        LinearStmt::Call(imm(0x4000), vec![reg(0), imm(2)]),
        LinearStmt::Call(imm(0x4100), vec![]),
        LinearStmt::Assign(0, Expr::Call(bx(imm(0x4000)), vec![reg(1)])),
    ];
    assert_eq!(
        code(stmts, &syms),
        "var0 = 12288;\nvar0 = *global_3000;\nvar0 = COUNT;\nvar0 = *global_3002;\n*COUNT = var0;\n*(var6 + 2) = var1;\nMAIN(var0, 2);\nfunc_4100();\nvar0 = MAIN(var1);\n"
    );
}

#[test]
fn generate_code_writes_conditions() {
    let syms = AddrMap::new();
    let stmts = vec![
        LinearStmt::Goto(None, 7, 0x3005),
        LinearStmt::Goto(Some(reg(0)), 2, 0x3005),
        LinearStmt::Goto(Some(Expr::Add(bx(reg(0)), bx(imm(-10)))), 6, 0x30A),
        LinearStmt::Goto(Some(Expr::Add(bx(reg(0)), bx(Expr::Neg(bx(reg(1)))))), 5, 0x3005),
        LinearStmt::Goto(Some(Expr::LogicalAnd(bx(reg(0)), 1, bx(reg(1)), 4)), 0, 0x3005),
        LinearStmt::Goto(None, 3, 0x3005),
        LinearStmt::Label(0x3005),
        LinearStmt::Trap(0x25),
        LinearStmt::Return(None),
        LinearStmt::Return(Some(reg(0))),
        LinearStmt::Break,
        LinearStmt::Continue,
    ];
    assert_eq!(
        code(stmts, &syms),
        "goto label_3005;\n\
if (var0 == 0) goto label_3005;\n\
if (var0 <= 10) goto label_030A;\n\
if (var0 != var1) goto label_3005;\n\
if (var0 > 0 && var1 < 0) goto label_3005;\n\
if (true) goto label_3005;\n\
label_3005:\n\
trap(0x25);\n\
return;\n\
return var0;\n\
break;\n\
continue;\n"
    );
}

#[test]
fn generate_code_writes_loops_and_else_if_chains() {
    let syms = AddrMap::new();
    let stmts = vec![
        LinearStmt::While(Some(reg(0)), 1, vec![LinearStmt::Label(0x3001), LinearStmt::Break]),
        LinearStmt::DoWhile(None, 7, vec![LinearStmt::Continue]),
        LinearStmt::If(
            Some(reg(0)),
            2,
            vec![LinearStmt::Assign(1, imm(1))],
            Some(vec![LinearStmt::If(Some(reg(0)), 4, vec![LinearStmt::Assign(1, imm(2))], None)]),
        ),
        LinearStmt::If(Some(reg(0)), 2, vec![], Some(vec![LinearStmt::Assign(1, imm(3))])),
    ];
    assert_eq!(
        code(stmts, &syms),
        "while (var0 > 0) {\n\
label_3001:\n\
\x20   break;\n\
}\n\
do {\n\
\x20   continue;\n\
} while (true);\n\
if (var0 == 0) {\n\
\x20   var1 = 1;\n\
} else if (var0 < 0) {\n\
\x20   var1 = 2;\n\
}\n\
if (var0 == 0) {\n\
} else {\n\
\x20   var1 = 3;\n\
}\n"
    );
}

#[test]
fn generate_code_of_a_concatenation_is_the_concatenation() {
    let syms = AddrMap::new();
    let a = || vec![LinearStmt::Assign(0, imm(1)), LinearStmt::Label(0x10)];
    let b = || vec![LinearStmt::Return(Some(reg(0)))];
    let mut ab = a();
    ab.extend(b());
    assert_eq!(code(ab, &syms), code(a(), &syms) + &code(b(), &syms));
}

#[test]
fn negate_cc_flips_each_flag() {
    assert_eq!(negate_cc(5), 2);
    assert_eq!(negate_cc(2), 5);
    assert_eq!(negate_cc(7), 0);
    assert_eq!(negate_cc(1), 6);
    assert_eq!(negate_cc(negate_cc(3)), 3);
}

#[test]
fn negate_logical_expr_applies_de_morgan() {
    let e = Expr::LogicalOr(bx(reg(0)), 1, bx(reg(1)), 2);
    let n = negate_logical_expr(&e);
    assert_eq!(n.debug_text(), "LogicalAnd(Register(0), 0x6, Register(1), 0x5)");
    assert_eq!(negate_logical_expr(&n).debug_text(), e.debug_text());
    assert_eq!(negate_logical_expr(&reg(3)).debug_text(), "Register(3)");
}

#[test]
fn debug_text_matches_the_debug_format() {
    assert_eq!(imm(-1).debug_text(), "Immediate(0xFFFF)");
    assert_eq!(Expr::Call(bx(imm(0x4000)), vec![reg(0), Expr::Param(1)]).debug_text(), "CallExpr(Immediate(0x4000), Register(0), Param(1))");
    assert_eq!(LinearStmt::Label(0x30).debug_text(), "Label(0x30)");
    assert_eq!(LinearStmt::Goto(None, 7, 0x3005).debug_text(), "Goto(None, 0x7, 0x3005)");
    assert_eq!(
        LinearStmt::If(Some(reg(0)), 5, vec![LinearStmt::Break], Some(vec![LinearStmt::Continue])).debug_text(),
        "If(Some(Register(0)), 0x5, {\n    Break\n  } else {\n    Continue\n  })"
    );
    let mut body = AddrMap::new();
    body.insert(0x3001, vec![stmt(0x3001, IRStmtKind::Break)]);
    assert_eq!(
        IRStmtKind::While(None, 7, body).debug_text(),
        "While(None, 0x7, {\n  Block 3001:\n    Break\n})"
    );
    assert_eq!(IRStmtKind::Return(None).debug_text(), "Return");
}

#[test]
fn structure_if_goto_patterns_builds_if_without_else() {
    let stmts = vec![
        LinearStmt::Goto(Some(reg(0)), 2, 0x10),
        LinearStmt::Assign(1, imm(1)),
        LinearStmt::Label(0x10),
    ];
    let r = structure_if_goto_patterns(stmts);
    let texts: Vec<String> = r.iter().map(|s| s.debug_text()).collect();
    assert_eq!(
        texts,
        vec!["If(Some(Register(0)), 0x5, {\n    Assign(1, Immediate(0x1))\n  })".to_string(), "Label(0x10)".to_string()]
    );
}

#[test]
fn structure_if_goto_patterns_builds_if_else() {
    let stmts = vec![
        LinearStmt::Goto(Some(reg(0)), 2, 0x10),
        LinearStmt::Assign(1, imm(1)),
        LinearStmt::Goto(None, 7, 0x20),
        LinearStmt::Label(0x10),
        LinearStmt::Assign(1, imm(2)),
        LinearStmt::Label(0x20),
    ];
    let r = structure_if_goto_patterns(stmts);
    let texts: Vec<String> = r.iter().map(|s| s.debug_text()).collect();
    assert_eq!(
        texts,
        vec![
            "If(Some(Register(0)), 0x5, {\n    Assign(1, Immediate(0x1))\n  } else {\n    Assign(1, Immediate(0x2))\n  })".to_string(),
            "Label(0x20)".to_string(),
        ]
    );
}

#[test]
fn structure_if_goto_patterns_takes_the_rest_for_outside_targets() {
    let stmts = vec![LinearStmt::Goto(Some(reg(0)), 4, 0x99), LinearStmt::Break];
    let r = structure_if_goto_patterns(stmts);
    let texts: Vec<String> = r.iter().map(|s| s.debug_text()).collect();
    assert_eq!(texts, vec!["If(Some(Register(0)), 0x3, {\n    Break\n  })".to_string()]);
}

#[test]
fn remove_orphaned_labels_keeps_targets_only() {
    let stmts = vec![
        LinearStmt::Label(0x1),
        LinearStmt::Goto(None, 7, 0x2),
        LinearStmt::While(None, 7, vec![LinearStmt::Label(0x3), LinearStmt::Label(0x2)]),
        LinearStmt::Label(0x2),
    ];
    let r = remove_orphaned_labels(stmts);
    let texts: Vec<String> = r.iter().map(|s| s.debug_text()).collect();
    assert_eq!(
        texts,
        vec![
            "Goto(None, 0x7, 0x2)".to_string(),
            "While(None, 0x7, {\n    Label(0x2)\n})".to_string(),
            "Label(0x2)".to_string(),
        ]
    );
    let again: Vec<String> = remove_orphaned_labels(r).iter().map(|s| s.debug_text()).collect();
    assert_eq!(again, texts);
}

#[test]
fn collapse_expressions_folds_constants_until_nothing_changes() {
    let mut blocks = AddrMap::new();
    blocks.insert(
        0x3000,
        vec![
            stmt(0x3000, IRStmtKind::Assign(0, Expr::Add(bx(imm(2)), bx(imm(3))))),
            stmt(0x3001, IRStmtKind::Assign(1, Expr::Not(bx(Expr::Not(bx(reg(2))))))),
        ],
    );
    let once = collapse_expressions(blocks);
    let texts: Vec<String> = once.get(0x3000).unwrap().iter().map(|s| s.kind.debug_text()).collect();
    assert_eq!(texts, vec!["Assign(0, Immediate(0x5))".to_string(), "Assign(1, Register(2))".to_string()]);
    let twice = collapse_expressions(once);
    let texts2: Vec<String> = twice.get(0x3000).unwrap().iter().map(|s| s.kind.debug_text()).collect();
    assert_eq!(texts2, texts);
}

#[test]
fn propagate_variables_inlines_single_uses() {
    let mut blocks = AddrMap::new();
    blocks.insert(
        0x3000,
        vec![
            stmt(0x3000, IRStmtKind::Assign(0, imm(1))),
            stmt(0x3001, IRStmtKind::Store(imm(0x3000), reg(0))),
            stmt(0x3002, IRStmtKind::Assign(1, imm(2))),
            stmt(0x3003, IRStmtKind::Store(reg(1), reg(1))),
        ],
    );
    propagate_variables(&mut blocks);
    let texts: Vec<String> = blocks.get(0x3000).unwrap().iter().map(|s| s.kind.debug_text()).collect();
    assert_eq!(
        texts,
        vec![
            "Store(Immediate(0x3000), Immediate(0x1))".to_string(),
            "Assign(1, Immediate(0x2))".to_string(),
            "Store(Register(1), Register(1))".to_string(),
        ]
    );
}

#[test]
fn control_flow_graph_of_a_counting_loop() {
    // 3000: AND R0, R0, #0; 3001 (LOOP): ADD R0, R0, #1; 3002: BRp LOOP; 3003: HALT
    let text: Vec<String> = vec!["3000", "4", "5020", "1021", "03FE", "F025"].into_iter().map(String::from).collect();
    let syms = symbols(&[(0x3001, "LOOP")]);
    let (dis, _) = disassemble(&text, &syms);
    assert_eq!(dis.get(0x3002).unwrap().nucleus, Nucleus::Instr(Instr::Br(1, -2)));
    let mut blocks = create_basic_blocks(0x3000, &dis);
    assert_eq!(blocks.keys(), vec![0x3000, 0x3001, 0x3003]);
    let b0 = blocks.get(0x3000).unwrap();
    assert_eq!((b0.length, b0.succs.clone()), (1, vec![0x3001]));
    let b1 = blocks.get(0x3001).unwrap();
    assert_eq!((b1.length, b1.succs.clone(), b1.preds.clone()), (2, vec![0x3001, 0x3003], vec![0x3000, 0x3001]));
    let b3 = blocks.get(0x3003).unwrap();
    assert_eq!((b3.length, b3.succs.clone(), b3.preds.clone()), (1, vec![], vec![0x3001]));
    compute_dominators(&mut blocks, 0x3000);
    assert_eq!(blocks.get(0x3000).unwrap().dominators, vec![0x3000]);
    assert_eq!(blocks.get(0x3001).unwrap().dominators, vec![0x3000, 0x3001]);
    assert_eq!(blocks.get(0x3003).unwrap().dominators, vec![0x3000, 0x3001, 0x3003]);
    let loops = compute_natural_loops(&blocks, 0x3000);
    assert_eq!(loops.len(), 1);
    assert_eq!(loops[0].header, 0x3001);
    assert_eq!(loops[0].blocks, vec![0x3001]);
}

#[test]
fn structure_if_goto_patterns_leaves_code_without_conditional_gotos() {
    let make = || {
        vec![
            LinearStmt::Assign(0, imm(1)),
            LinearStmt::Goto(None, 7, 0x20),
            LinearStmt::Goto(Some(reg(0)), 7, 0x20),
            LinearStmt::While(None, 7, vec![LinearStmt::Break]),
            LinearStmt::Label(0x20),
        ]
    };
    let before: Vec<String> = make().iter().map(|s| s.debug_text()).collect();
    let after: Vec<String> = structure_if_goto_patterns(make()).iter().map(|s| s.debug_text()).collect();
    assert_eq!(after, before);
}

#[test]
fn generate_code_matches_the_fibonacci_example() {
    let syms = symbols(&[(0x3100, "FIB")]);
    let stmts = vec![
        LinearStmt::Assign(0, Expr::Param(0)),
        LinearStmt::Assign(2, Expr::Add(bx(reg(0)), bx(imm(-1)))),
        LinearStmt::If(
            Some(reg(2)),
            1,
            vec![
                LinearStmt::Assign(0, reg(2)),
                LinearStmt::Assign(3, Expr::Call(bx(imm(0x3100)), vec![reg(0)])),
                LinearStmt::Assign(
                    1,
                    Expr::Add(bx(reg(3)), bx(Expr::Call(bx(imm(0x3100)), vec![Expr::Add(bx(reg(0)), bx(imm(-1)))]))),
                ),
            ],
            Some(vec![LinearStmt::Assign(1, reg(0))]),
        ),
        LinearStmt::Return(Some(reg(1))),
    ];
    let expected = "var0 = param0;\n\
var2 = var0 - 1;\n\
if (var2 > 0) {\n\
\x20   var0 = var2;\n\
\x20   var3 = FIB(var0);\n\
\x20   var1 = var3 + FIB(var0 - 1);\n\
} else {\n\
\x20   var1 = var0;\n\
}\n\
return var1;\n";
    assert_eq!(code(stmts, &syms), expected);
}

#[test]
fn generate_code_matches_the_caesar_cipher_example() {
    let (la, al, ua, md) = (0x3050i16, 0x3051i16, 0x3052i16, 0x3200i16);
    let syms = symbols(&[(0x3050, "ASCIILOWERA"), (0x3051, "ALPHABETLEN"), (0x3052, "ASCIIUPPERA"), (0x3200, "MOD")]);
    let ld = |a: i16| Expr::Load(bx(imm(a)));
    let range = |lo: i16| {
        Expr::LogicalAnd(
            bx(Expr::Sub(bx(reg(3)), bx(ld(lo)))),
            3,
            bx(Expr::Sub(bx(reg(3)), bx(Expr::Add(bx(ld(lo)), bx(ld(al)))))),
            6,
        )
    };
    let shift = |lo: i16| {
        vec![
            LinearStmt::Assign(3, Expr::Sub(bx(reg(3)), bx(ld(lo)))),
            LinearStmt::Assign(
                3,
                Expr::Add(
                    bx(Expr::Call(bx(imm(md)), vec![Expr::Add(bx(reg(3)), bx(Expr::Param(1))), ld(al)])),
                    bx(ld(lo)),
                ),
            ),
        ]
    };
    let body = vec![
        LinearStmt::Assign(3, Expr::Load(bx(Expr::Add(bx(Expr::Param(0)), bx(reg(1)))))),
        LinearStmt::If(
            Some(range(la)),
            7,
            shift(la),
            Some(vec![LinearStmt::If(Some(range(ua)), 7, shift(ua), None)]),
        ),
        LinearStmt::Store(Expr::Add(bx(Expr::Param(0)), bx(reg(1))), reg(3)),
    ];
    let stmts = vec![
        LinearStmt::Assign(0, imm(0)),
        LinearStmt::While(
            Some(Expr::Load(bx(Expr::Add(bx(Expr::Param(0)), bx(reg(0)))))),
            5,
            vec![LinearStmt::Assign(0, Expr::Add(bx(reg(0)), bx(imm(1))))],
        ),
        LinearStmt::For(
            Box::new(LinearStmt::Assign(1, imm(0))),
            Some(Expr::Sub(bx(reg(1)), bx(reg(0)))),
            4,
            Box::new(LinearStmt::Assign(1, Expr::Add(bx(reg(1)), bx(imm(1))))),
            body,
        ),
        LinearStmt::Return(Some(reg(0))),
    ];
    let expected = "var0 = 0;\n\
while (*(param0 + var0) != 0) {\n\
\x20   var0++;\n\
}\n\
for (var1 = 0; var1 < var0; var1++) {\n\
\x20   var3 = *(param0 + var1);\n\
\x20   if (var3 >= *ASCIILOWERA && var3 <= *ASCIILOWERA + *ALPHABETLEN) {\n\
\x20       var3 = var3 - *ASCIILOWERA;\n\
\x20       var3 = MOD(var3 + param1, *ALPHABETLEN) + *ASCIILOWERA;\n\
\x20   } else if (var3 >= *ASCIIUPPERA && var3 <= *ASCIIUPPERA + *ALPHABETLEN) {\n\
\x20       var3 = var3 - *ASCIIUPPERA;\n\
\x20       var3 = MOD(var3 + param1, *ALPHABETLEN) + *ASCIIUPPERA;\n\
\x20   }\n\
\x20   *(param0 + var1) = var3;\n\
}\n\
return var0;\n";
    assert_eq!(code(stmts, &syms), expected);
}

#[test]
fn parse_object_reads_symbol_lines_ending_in_crlf() {
    let obj = "LC-3 OBJ FILE\n\n.TEXT\n3000\n1\nF025\n\n.SYMBOL\nADDR | EXT | LABEL\r\n3000 | 0 | MAIN\r\n4000 | 0 | DATA\r\n";
    let (text, syms) = parse_object(obj).unwrap();
    assert_eq!(text, vec!["3000", "1", "F025"]);
    assert_eq!(syms.len(), 2);
    assert_eq!(syms.get(0x3000).map(|s| s.as_str()), Some("MAIN"));
    assert_eq!(syms.get(0x4000).map(|s| s.as_str()), Some("DATA"));
    assert!(parse_object("LC-3 OBJ FILE\n\n.TEXT").is_none());
}

#[test]
fn process_caller_finds_a_stack_read_under_an_addition() {
    let mut blocks = AddrMap::new();
    blocks.insert(
        0x3000,
        vec![
            stmt(0x3000, IRStmtKind::Call(imm(0x4000), vec![])),
            stmt(0x3001, IRStmtKind::Assign(0, Expr::Load(bx(Expr::Add(bx(Expr::Load(bx(reg(6)))), bx(imm(1))))))),
        ],
    );
    process_caller(&mut blocks);
    let texts: Vec<String> = blocks.get(0x3000).unwrap().iter().map(|s| s.kind.debug_text()).collect();
    assert_eq!(
        texts,
        vec!["Assign(0, Load(Add(CallExpr(Immediate(0x4000)), Immediate(0x1))))".to_string()]
    );
}

fn block(length: u16, preds: Vec<u16>, succs: Vec<u16>) -> BasicBlock {
    BasicBlock { length, preds, succs, dominators: vec![] }
}

#[test]
fn collapse_expressions_keeps_the_value_of_folded_expressions() {
    let mut blocks = AddrMap::new();
    blocks.insert(
        0x3000,
        vec![
            stmt(0x3000, IRStmtKind::Assign(0, Expr::Add(bx(Expr::Add(bx(reg(1)), bx(imm(3)))), bx(imm(4))))),
            stmt(0x3001, IRStmtKind::Assign(1, Expr::Add(bx(Expr::Not(bx(reg(2)))), bx(imm(1))))),
            stmt(0x3002, IRStmtKind::Assign(2, Expr::Not(bx(imm(5))))),
            stmt(0x3003, IRStmtKind::Assign(3, Expr::Add(bx(imm(0x7FFF)), bx(imm(1))))),
        ],
    );
    let out = collapse_expressions(blocks);
    let texts: Vec<String> = out.get(0x3000).unwrap().iter().map(|s| s.kind.debug_text()).collect();
    assert_eq!(
        texts,
        vec![
            "Assign(0, Add(Register(1), Immediate(0x7)))".to_string(),
            "Assign(1, Neg(Register(2)))".to_string(),
            "Assign(2, Immediate(0xFFFA))".to_string(),
            "Assign(3, Immediate(0x8000))".to_string(),
        ]
    );
}

#[test]
fn identify_loops_merges_loops_per_header_and_sorts_them() {
    let mut g = AddrMap::new();
    g.insert(0x3000, block(1, vec![], vec![0x3001]));
    g.insert(0x3001, block(1, vec![0x3000, 0x3002, 0x3003], vec![0x3002, 0x3003]));
    g.insert(0x3002, block(1, vec![0x3001], vec![0x3001]));
    g.insert(0x3003, block(1, vec![0x3001], vec![0x3001, 0x3004]));
    g.insert(0x3004, block(1, vec![0x3003], vec![]));
    g.insert(0x3005, block(1, vec![0x3005], vec![0x3005]));
    let mut natural = vec![
        NaturalLoop { header: 0x3001, blocks: vec![0x3001, 0x3002] },
        NaturalLoop { header: 0x3005, blocks: vec![0x3005] },
        NaturalLoop { header: 0x3001, blocks: vec![0x3001, 0x3003] },
    ];
    let loops = identify_loops(&mut natural, &g);
    assert_eq!(natural.len(), 3);
    assert_eq!(loops.len(), 2);
    assert_eq!((loops[0].header, loops[0].blocks.clone()), (0x3005, vec![0x3005]));
    assert_eq!((loops[0].break_block, loops[0].continue_block), (None, Some(0x3005)));
    assert_eq!((loops[1].header, loops[1].blocks.clone()), (0x3001, vec![0x3001, 0x3002, 0x3003]));
    assert_eq!((loops[1].break_block, loops[1].continue_block), (Some(0x3004), Some(0x3002)));
}

#[test]
fn identify_conditionals_finds_disjoint_diamonds_in_address_order() {
    let mut g = AddrMap::new();
    g.insert(0x3000, block(1, vec![], vec![0x3001, 0x3002]));
    g.insert(0x3001, block(1, vec![0x3000], vec![0x3003]));
    g.insert(0x3002, block(1, vec![0x3000], vec![0x3003]));
    g.insert(0x3003, block(1, vec![0x3001, 0x3002], vec![0x3004, 0x3005]));
    g.insert(0x3004, block(1, vec![0x3003], vec![0x3005]));
    g.insert(0x3005, block(1, vec![0x3003, 0x3004], vec![]));
    let conds = identify_conditionals(&g);
    assert_eq!(conds.len(), 2);
    assert_eq!(conds[0].kind, ConditionalType::IfElse);
    assert_eq!(
        (conds[0].condition_block, conds[0].true_block, conds[0].false_block, conds[0].join_block),
        (0x3000, 0x3001, Some(0x3002), 0x3003)
    );
    assert_eq!(conds[1].kind, ConditionalType::If);
    assert_eq!(
        (conds[1].condition_block, conds[1].true_block, conds[1].false_block, conds[1].join_block),
        (0x3003, 0x3004, None, 0x3005)
    );
}

#[test]
fn merge_compound_conditions_joins_gotos_to_one_target() {
    let mut g = AddrMap::new();
    g.insert(0x3000, block(1, vec![], vec![0x3005, 0x3001]));
    g.insert(0x3001, block(1, vec![0x3000], vec![0x3005, 0x3002]));
    g.insert(0x3002, block(1, vec![0x3001], vec![0x3005]));
    g.insert(0x3005, block(1, vec![0x3000, 0x3001, 0x3002], vec![]));
    let mut blocks = AddrMap::new();
    blocks.insert(0x3000, vec![stmt(0x3000, IRStmtKind::Goto(Some(reg(0)), 2, 0x3005))]);
    blocks.insert(0x3001, vec![stmt(0x3001, IRStmtKind::Goto(Some(reg(1)), 4, 0x3005))]);
    blocks.insert(0x3002, vec![stmt(0x3002, IRStmtKind::Assign(2, imm(1)))]);
    blocks.insert(0x3005, vec![stmt(0x3005, IRStmtKind::Return(None))]);
    merge_compound_conditions(&mut blocks, &g, &vec![]);
    assert_eq!(blocks.keys(), vec![0x3000, 0x3002, 0x3005]);
    let texts: Vec<String> = blocks.get(0x3000).unwrap().iter().map(|s| s.kind.debug_text()).collect();
    assert_eq!(
        texts,
        vec!["Goto(Some(LogicalOr(Register(0), 0x2, Register(1), 0x4)), 0x5, 0x3005)".to_string()]
    );
}
