use vstd::prelude::*;
use crate::addr_map::AddrMap;
use crate::addr_set::AddrSet;
use crate::lc3::{Instr, Line, Nucleus, disassemble_word, disassembled, nucleus_regs_ok};
use crate::text::{
    lines_of, parse_u16, radix_parse, split_spec, split_str, std_lines, ws_words, views,
    words_of,
};

verus! {

/// The section separator of an object file: an empty line.
pub open spec fn blank_line() -> Seq<char> {
    seq!['\n', '\n']
}

/// One line of the symbol table: its first word is the address in hex, its
/// fifth word the symbol's name. `None` where the line has no such words.
pub open spec fn symbol_line(line: Seq<char>) -> Option<(u16, Seq<char>)> {
    let parts = ws_words(line);
    if parts.len() == 0 {
        None
    } else {
        match radix_parse(parts[0], 16) {
            None => None,
            Some(a) => if parts.len() < 5 {
                None
            } else {
                Some((a, parts[4]))
            },
        }
    }
}

/// The symbol table read from its lines, later lines overriding earlier ones.
pub open spec fn symbol_table(lines: Seq<Seq<char>>) -> Option<Map<u16, Seq<char>>>
    decreases lines.len(),
{
    if lines.len() == 0 {
        Some(Map::empty())
    } else {
        match symbol_table(lines.drop_last()) {
            None => None,
            Some(m) => match symbol_line(lines.last()) {
                None => None,
                Some((a, name)) => Some(m.insert(a, name)),
            },
        }
    }
}

/// The text and symbol sections of an object file. The file is split at empty
/// lines; the text is the second section without its first line, split at
/// line feeds; the symbols are read from the lines of the third section after
/// its two header lines. `None` where the file has fewer than three sections
/// or a symbol line is malformed.
pub open spec fn sections_of(content: Seq<char>) -> Option<(Seq<Seq<char>>, Map<u16, Seq<char>>)> {
    let secs = split_spec(content, blank_line());
    if secs.len() < 3 {
        None
    } else {
        let text = split_spec(secs[1], seq!['\n']).skip(1);
        let sym_lines = std_lines(secs[2]);
        let sym_lines = if sym_lines.len() >= 2 {
            sym_lines.skip(2)
        } else {
            Seq::empty()
        };
        match symbol_table(sym_lines) {
            None => None,
            Some(m) => Some((text, m)),
        }
    }
}

/// The names of a symbol table, as character sequences.
pub open spec fn name_map(m: Map<u16, String>) -> Map<u16, Seq<char>> {
    m.map_values(|s: String| s@)
}

/// Splits an object file into its text lines and its symbol table
/// (address to name). `None` where the file does not have that shape.
pub fn parse_object(content: &str) -> (r: Option<(Vec<String>, AddrMap<String>)>)
    ensures
        match (r, sections_of(content@)) {
            (Some((text, syms)), Some((t, m))) => views(text@) == t && syms.wf() && name_map(
                syms.map(),
            ) == m,
            (None, None) => true,
            _ => false,
        },
{
    let sep = "\n\n";
    let nl = "\n";
    proof {
        reveal_strlit("\n\n");
        reveal_strlit("\n");
        assert(nl@ =~= seq!['\n']);
        assert(sep@ =~= blank_line());
    }
    let sections = split_str(content, sep);
    if sections.len() < 3 {
        return None;
    }
    let text_all = split_str(sections[1].as_str(), nl);
    let mut text: Vec<String> = Vec::new();
    let mut i: usize = 1;
    while i < text_all.len()
        invariant
            1 <= i,
            text_all@.len() > 0 ==> i <= text_all@.len(),
            text@.len() == i - 1,
            forall|k: int| 0 <= k < text@.len() ==> #[trigger] text@[k]@ == text_all@[k + 1]@,
        decreases text_all@.len() - i,
    {
        text.push(text_all[i].clone());
        i = i + 1;
    }
    proof {
        assert(views(text@) =~= views(text_all@).skip(1));
    }
    let sym_all = lines_of(sections[2].as_str());
    assert(views(sections@)[2] == sections@[2]@);
    assert(views(sections@)[1] == sections@[1]@);
    let mut syms: AddrMap<String> = AddrMap::new();
    let mut j: usize = 2;
    let ghost sym_lines = if views(sym_all@).len() >= 2 {
        views(sym_all@).skip(2)
    } else {
        Seq::empty()
    };
    while j < sym_all.len()
        invariant
            2 <= j,
            sections@.len() >= 3,
            split_spec(content@, blank_line()) == views(sections@),
            views(sym_all@) == std_lines(sections@[2]@),
            views(sections@)[2] == sections@[2]@,
            sym_all@.len() >= 2 ==> j <= sym_all@.len(),
            syms.wf(),
            sym_lines == (if views(sym_all@).len() >= 2 {
                views(sym_all@).skip(2)
            } else {
                Seq::<Seq<char>>::empty()
            }),
            j <= sym_all@.len() ==> symbol_table(sym_lines.subrange(0, j - 2)) == Some(
                name_map(syms.map()),
            ),
            j > sym_all@.len() ==> sym_lines.len() == 0 && name_map(syms.map()) == Map::<
                u16,
                Seq<char>,
            >::empty(),
        decreases sym_all@.len() - j,
    {
        let parts = words_of(sym_all[j].as_str());
        let ghost line = sym_lines[j - 2];
        assert(line == sym_all@[j as int]@);
        assert(sym_lines.subrange(0, j - 2) =~= sym_lines.subrange(0, j + 1 - 2).drop_last());
        if parts.len() == 0 {
            proof {
                lemma_table_fails_on(sym_lines, (j - 2) as int);
            }
            return None;
        }
        assert(views(parts@)[0] == parts@[0]@);
        assert(views(parts@) == ws_words(line));
        let a = parse_u16(parts[0].as_str(), 16);
        match a {
            None => {
                proof {
                    lemma_table_fails_on(sym_lines, (j - 2) as int);
                }
                return None;
            },
            Some(addr) => {
                if parts.len() < 5 {
                    proof {
                        lemma_table_fails_on(sym_lines, (j - 2) as int);
                    }
                    return None;
                }
                let ghost before = syms.map();
                syms.insert(addr, parts[4].clone());
                proof {
                    assert(name_map(syms.map()) =~= name_map(before).insert(addr, parts@[4]@));
                }
            },
        }
        j = j + 1;
    }
    proof {
        if sym_all@.len() >= 2 {
            assert(sym_lines.subrange(0, j - 2) =~= sym_lines);
        } else {
            assert(symbol_table(sym_lines) == Some(Map::<u16, Seq<char>>::empty()));
            assert(name_map(syms.map()) =~= Map::<u16, Seq<char>>::empty());
        }
    }
    Some((text, syms))
}

/// A symbol table that fails on a line fails on every longer prefix.
proof fn lemma_table_fails_on(lines: Seq<Seq<char>>, k: int)
    requires
        0 <= k < lines.len(),
        symbol_line(lines[k]) is None,
    ensures
        symbol_table(lines) is None,
    decreases lines.len(),
{
    if k < lines.len() - 1 {
        lemma_table_fails_on(lines.drop_last(), k);
    } else {
        assert(lines.last() == lines[k]);
    }
}

/// The target of a PC-relative branch at `addr`: `addr + 1 + off`, wrapping
/// around the 16-bit address space.
pub open spec fn pc_target(addr: u16, off: i16) -> u16 {
    ((addr as int + 1 + off as int) % 0x10000) as u16
}

/// Computes `pc_target`.
pub fn pc_relative(addr: u16, off: i16) -> (t: u16)
    ensures
        t == pc_target(addr, off),
{
    let shifted: u32 = (off as i32 + 0x10000) as u32;
    let sum: u32 = addr as u32 + 1 + shifted;
    assert((sum as int) % 0x10000 == (addr as int + 1 + off as int) % 0x10000) by (nonlinear_arith)
        requires
            sum as int == addr as int + 1 + off as int + 0x10000,
    ;
    (sum % 0x10000) as u16
}

/// A section of the text: its start address and its words.
pub struct Section {
    pub start: u16,
    pub words: Seq<u16>,
}

/// The sections of the text from line `index` on: a start address in hex, a
/// word count in decimal, then that many words in hex (a word that does not
/// parse reads as 0). `None` where a start or count is malformed or lines run
/// out.
pub open spec fn sections_from(text: Seq<Seq<char>>, index: int) -> Option<Seq<(u16, Seq<u16>)>>
    decreases text.len() - index,
{
    if index < 0 || index >= text.len() {
        Some(Seq::empty())
    } else {
        match radix_parse(text[index], 16) {
            None => None,
            Some(start) => if index + 1 >= text.len() {
                None
            } else {
                match radix_parse(text[index + 1], 10) {
                    None => None,
                    Some(n) => if index + 2 + n > text.len() {
                        None
                    } else {
                        let words = Seq::new(
                            n as nat,
                            |i: int|
                                match radix_parse(text[index + 2 + i], 16) {
                                    Some(w) => w,
                                    None => 0u16,
                                },
                        );
                        match sections_from(text, index + 2 + n) {
                            None => None,
                            Some(rest) => Some(seq![(start, words)] + rest),
                        }
                    },
                }
            },
        }
    }
}

/// The address of the `i`th word of a section starting at `start`.
pub open spec fn word_addr(start: u16, i: int) -> u16 {
    ((start as int + i) % 0x10000) as u16
}

/// The disassembly of the first `k` words of a section added to `m`.
pub open spec fn add_words(
    m: Map<u16, Line>,
    start: u16,
    words: Seq<u16>,
    k: int,
    labeled: Set<u16>,
) -> Map<u16, Line>
    decreases k,
{
    if k <= 0 {
        m
    } else {
        let a = word_addr(start, k - 1);
        add_words(m, start, words, k - 1, labeled).insert(
            a,
            Line { labeled: labeled.contains(a), nucleus: disassembled(words[k - 1]) },
        )
    }
}

/// The disassembly of a sequence of sections, later words overriding earlier
/// ones at the same address.
pub open spec fn disassembly_of(secs: Seq<(u16, Seq<u16>)>, labeled: Set<u16>) -> Map<u16, Line>
    decreases secs.len(),
{
    if secs.len() == 0 {
        Map::empty()
    } else {
        let last = secs.last();
        add_words(disassembly_of(secs.drop_last(), labeled), last.0, last.1, last.1.len() as int, labeled)
    }
}

/// Every register number in every disassembled line is below 8.
pub open spec fn lines_regs_ok(m: Map<u16, Line>) -> bool {
    forall|a: u16| #[trigger] m.dom().contains(a) ==> nucleus_regs_ok(m[a].nucleus)
}

/// Disassembles the text of an object file: each section's words are decoded
/// and stored at consecutive addresses, and a line is labeled where the symbol
/// table names its address. Returns the disassembly and the start address of
/// each section, or `None` where the text is malformed.
pub fn parse_text(text: &Vec<String>, symbols: &AddrMap<String>) -> (r: Option<
    (AddrMap<Line>, Vec<u16>),
>)
    requires
        symbols.wf(),
    ensures
        match (r, sections_from(views(text@), 0)) {
            (Some((dis, origs)), Some(secs)) => dis.wf() && dis.map() == disassembly_of(
                secs,
                symbols.map().dom(),
            ) && origs@ == secs.map_values(|s: (u16, Seq<u16>)| s.0) && lines_regs_ok(dis.map()),
            (None, None) => true,
            _ => false,
        },
{
    let ghost t = views(text@);
    let ghost labeled = symbols.map().dom();
    let mut dis: AddrMap<Line> = AddrMap::new();
    let mut origs: Vec<u16> = Vec::new();
    let ghost mut done: Seq<(u16, Seq<u16>)> = Seq::empty();
    let mut index: usize = 0;
    while index < text.len()
        invariant
            t == views(text@),
            labeled == symbols.map().dom(),
            symbols.wf(),
            dis.wf(),
            index <= text@.len(),
            sections_from(t, 0) == match sections_from(t, index as int) {
                None => None,
                Some(rest) => Some(done + rest),
            },
            dis.map() == disassembly_of(done, labeled),
            origs@ == done.map_values(|s: (u16, Seq<u16>)| s.0),
            lines_regs_ok(dis.map()),
        decreases text@.len() - index,
    {
        let start = match parse_u16(text[index].as_str(), 16) {
            Some(s) => s,
            None => {
                return None;
            },
        };
        if index + 1 >= text.len() {
            return None;
        }
        let count = match parse_u16(text[index + 1].as_str(), 10) {
            Some(c) => c,
            None => {
                return None;
            },
        };
        if (count as usize) > text.len() - (index + 2) {
            return None;
        }
        let ghost words = Seq::new(
            count as nat,
            |i: int|
                match radix_parse(t[index + 2 + i], 16) {
                    Some(w) => w,
                    None => 0u16,
                },
        );
        let ghost before = dis.map();
        origs.push(start);
        let mut i: u16 = 0;
        while i < count
            invariant
                t == views(text@),
                labeled == symbols.map().dom(),
                symbols.wf(),
                dis.wf(),
                i <= count,
                index + 2 + count <= text@.len(),
                index + 2 + count <= text.len(),
                words.len() == count,
                forall|k: int|
                    0 <= k < count ==> #[trigger] words[k] == match radix_parse(
                        t[index + 2 + k],
                        16,
                    ) {
                        Some(w) => w,
                        None => 0u16,
                    },
                dis.map() == add_words(before, start, words, i as int, labeled),
                lines_regs_ok(before),
                lines_regs_ok(dis.map()),
            decreases count - i,
        {
            let w = match parse_u16(text[index + 2 + (i as usize)].as_str(), 16) {
                Some(w) => w,
                None => 0,
            };
            assert(w == words[i as int]);
            let addr = start.wrapping_add(i);
            assert(addr == word_addr(start, i as int)) by {
                assert(addr == ((start as int + i as int) % 0x10000) as u16);
            }
            let labeled_here = symbols.contains_key(addr);
            let n = disassemble_word(w);
            let ghost m0 = dis.map();
            dis.insert(addr, Line { labeled: labeled_here, nucleus: n });
            i = i + 1;
            proof {
                assert(dis.map() == add_words(before, start, words, i as int, labeled));
                assert forall|a: u16| #[trigger] dis.map().dom().contains(a) implies nucleus_regs_ok(
                    dis.map()[a].nucleus,
                ) by {
                    if a != addr {
                        assert(m0.dom().contains(a));
                    }
                }
            }
        }
        proof {
            let ghost done2 = done.push((start, words));
            assert(done2.drop_last() =~= done);
            assert(done2.last() == (start, words));
            let rest_opt = sections_from(t, index as int);
            let next = index + 2 + count;
            match sections_from(t, next as int) {
                None => {},
                Some(rest2) => {
                    assert(rest_opt == Some(seq![(start, words)] + rest2)) by {
                        assert(radix_parse(t[index as int], 16) == Some(start));
                        assert(radix_parse(t[index + 1], 10) == Some(count));
                        let w2 = Seq::new(
                            count as nat,
                            |k: int|
                                match radix_parse(t[index + 2 + k], 16) {
                                    Some(w) => w,
                                    None => 0u16,
                                },
                        );
                        assert(w2 =~= words);
                    }
                    assert(done + (seq![(start, words)] + rest2) =~= done2 + rest2);
                },
            }
            if sections_from(t, next as int) is None {
                assert(rest_opt is None) by {
                    assert(radix_parse(t[index as int], 16) == Some(start));
                    assert(radix_parse(t[index + 1], 10) == Some(count));
                }
            }
            done = done2;
            assert(origs@ =~= done.map_values(|s: (u16, Seq<u16>)| s.0));
        }
        index = index + 2 + (count as usize);
    }
    proof {
        assert(done + Seq::<(u16, Seq<u16>)>::empty() =~= done);
    }
    Some((dis, origs))
}

/// Whether an object file has the shape that `gen_sections` reads: three
/// sections, and a symbol table whose lines each give an address in hex and a
/// name as their first and fifth words.
pub fn object_well_formed(content: &str) -> (b: bool)
    ensures
        b == sections_of(content@) is Some,
{
    parse_object(content).is_some()
}

/// Splits an object file into its text lines (the second section, without its
/// first line) and its symbol table (address to name, from the third section
/// without its first two lines).
pub fn gen_sections(content: &str) -> (r: (Vec<String>, AddrMap<String>))
    requires
        sections_of(content@) is Some,
    ensures
        r.1.wf(),
        sections_of(content@) matches Some((t, m)) && views(r.0@) == t && name_map(r.1.map()) == m,
{
    match parse_object(content) {
        Some(r) => r,
        None => (Vec::new(), AddrMap::new()),
    }
}

/// Whether the text lines of an object file are a sequence of sections that
/// `disassemble` reads: a start address in hex, a word count in decimal, then
/// that many lines.
pub fn text_well_formed(text: &Vec<String>) -> (b: bool)
    ensures
        b == sections_from(views(text@), 0) is Some,
{
    parse_text(text, &AddrMap::new()).is_some()
}

/// Disassembles the text of an object file: each section's words are decoded
/// and stored at consecutive addresses, and a line is labeled where the symbol
/// table names its address. Returns the disassembly and the start address of
/// each section.
pub fn disassemble(text: &Vec<String>, symbols: &AddrMap<String>) -> (r: (AddrMap<Line>, Vec<u16>))
    requires
        symbols.wf(),
        sections_from(views(text@), 0) is Some,
    ensures
        r.0.wf(),
        lines_regs_ok(r.0.map()),
        sections_from(views(text@), 0) matches Some(secs) && r.0.map() == disassembly_of(secs, symbols.map().dom())
            && r.1@ == secs.map_values(|s: (u16, Seq<u16>)| s.0),
{
    match parse_text(text, symbols) {
        Some(r) => r,
        None => (AddrMap::new(), Vec::new()),
    }
}

/// The first labeled address at or after `a` within the run of consecutive
/// disassembled addresses that starts at `a`.
pub open spec fn label_from(m: Map<u16, Line>, a: int) -> Option<u16>
    decreases 0x10000 - a,
{
    if a < 0 || a > 0xFFFF || !m.dom().contains(a as u16) {
        None
    } else if m[a as u16].labeled {
        Some(a as u16)
    } else {
        label_from(m, a + 1)
    }
}

/// Whether a line ends a basic block: a branch, a jump, a return or a halt
/// (calls do not end blocks).
pub open spec fn ends_block(l: Line) -> bool {
    match l.nucleus {
        Nucleus::Instr(Instr::Br(_, _)) | Nucleus::Instr(Instr::Jmp(_)) | Nucleus::Instr(
            Instr::Ret,
        ) | Nucleus::Instr(Instr::Halt) => true,
        _ => false,
    }
}

/// The first block-ending address at or after `a` within the run of
/// consecutive disassembled addresses that starts at `a`.
pub open spec fn branch_from(m: Map<u16, Line>, a: int) -> Option<u16>
    decreases 0x10000 - a,
{
    if a < 0 || a > 0xFFFF || !m.dom().contains(a as u16) {
        None
    } else if ends_block(m[a as u16]) {
        Some(a as u16)
    } else {
        branch_from(m, a + 1)
    }
}

/// The last address of the run of consecutive disassembled addresses that
/// starts at `a`.
pub open spec fn run_last(m: Map<u16, Line>, a: int) -> int
    decreases 0x10000 - a,
{
    if 0 <= a < 0xFFFF && m.dom().contains((a + 1) as u16) {
        run_last(m, a + 1)
    } else {
        a
    }
}

/// Whether a line is a branch whose destination is known (a `BR`).
pub open spec fn is_br(l: Line) -> bool {
    l.nucleus matches Nucleus::Instr(Instr::Br(_, _))
}

/// Whether a line is a conditional branch (a `BR` whose condition is not
/// always true).
pub open spec fn is_cond_br(l: Line) -> bool {
    l.nucleus matches Nucleus::Instr(Instr::Br(cc, _)) && cc != 7
}

/// The address after `a`, wrapping around.
pub open spec fn next_addr(a: u16) -> u16 {
    ((a as int + 1) % 0x10000) as u16
}

/// What `find_next_branch` reports for the block-ending address `b`.
pub open spec fn branch_info(m: Map<u16, Line>, b: u16) -> (u16, u16, bool, bool) {
    (b, next_addr(b), is_br(m[b]), is_cond_br(m[b]))
}

/// Finds the first labeled address after `current_address` within the run of
/// consecutive disassembled addresses that follows it.
pub fn find_next_label(current_address: u16, disassembly: &AddrMap<Line>) -> (r: Option<u16>)
    requires
        disassembly.wf(),
    ensures
        r == label_from(disassembly.map(), current_address + 1),
{
    let ghost m = disassembly.map();
    if current_address == 0xFFFF {
        return None;
    }
    let mut addr: u16 = current_address + 1;
    loop
        invariant
            m == disassembly.map(),
            disassembly.wf(),
            label_from(m, current_address + 1) == label_from(m, addr as int),
        decreases 0x10000 - addr,
    {
        match disassembly.get(addr) {
            None => {
                return None;
            },
            Some(line) => {
                if line.labeled {
                    return Some(addr);
                }
            },
        }
        if addr == 0xFFFF {
            assert(label_from(m, 0x10000) is None);
            return None;
        }
        addr = addr + 1;
    }
}

/// Finds the first block-ending instruction at or after `current_address`
/// within the run of consecutive disassembled addresses that starts there.
/// Returns its address, the address after it, whether its destination is
/// known (a `BR`), and whether it is conditional.
pub fn find_next_branch(current_address: u16, disassembly: &AddrMap<Line>) -> (r: Option<
    (u16, u16, bool, bool),
>)
    requires
        disassembly.wf(),
    ensures
        r == match branch_from(disassembly.map(), current_address as int) {
            None => None,
            Some(b) => Some(branch_info(disassembly.map(), b)),
        },
{
    let ghost m = disassembly.map();
    let mut addr: u16 = current_address;
    loop
        invariant
            m == disassembly.map(),
            disassembly.wf(),
            branch_from(m, current_address as int) == branch_from(m, addr as int),
        decreases 0x10000 - addr,
    {
        match disassembly.get(addr) {
            None => {
                return None;
            },
            Some(line) => {
                let (is_branch, known, cond) = match line.nucleus {
                    Nucleus::Instr(Instr::Br(cc, _)) => (true, true, cc != 7),
                    Nucleus::Instr(Instr::Jmp(_)) => (true, false, false),
                    Nucleus::Instr(Instr::Ret) => (true, false, false),
                    Nucleus::Instr(Instr::Halt) => (true, false, false),
                    _ => (false, false, false),
                };
                if is_branch {
                    return Some((addr, addr.wrapping_add(1), known, cond));
                }
            },
        }
        if addr == 0xFFFF {
            assert(branch_from(m, 0x10000) is None);
            return None;
        }
        addr = addr + 1;
    }
}

/// Returns the last address of the run of consecutive disassembled addresses
/// that starts at `start`.
pub fn find_run_last(start: u16, disassembly: &AddrMap<Line>) -> (r: u16)
    requires
        disassembly.wf(),
    ensures
        r as int == run_last(disassembly.map(), start as int),
{
    let ghost m = disassembly.map();
    let mut last: u16 = start;
    while last < 0xFFFF && disassembly.contains_key(last + 1)
        invariant
            m == disassembly.map(),
            disassembly.wf(),
            run_last(m, start as int) == run_last(m, last as int),
        decreases 0xFFFF - last,
    {
        last = last + 1;
    }
    last
}

/// The destination of the `BR` at `address`, if there is one.
pub open spec fn branch_destination(dis: Map<u16, Line>, address: u16) -> Option<u16> {
    if dis.dom().contains(address) {
        match dis[address].nucleus {
            Nucleus::Instr(Instr::Br(_, off)) => Some(pc_target(address, off)),
            _ => None,
        }
    } else {
        None
    }
}

/// Returns the destination of the `BR` at `address`, if there is one.
pub fn get_branch_destination(address: u16, disassembly: &AddrMap<Line>) -> (r: Option<u16>)
    requires
        disassembly.wf(),
    ensures
        r == branch_destination(disassembly.map(), address),
{
    match disassembly.get(address) {
        Some(line) => match line.nucleus {
            Nucleus::Instr(Instr::Br(_, off)) => Some(pc_relative(address, off)),
            _ => None,
        },
        None => None,
    }
}

/// Whether the scan of code goes on to the next word after a line: every
/// instruction but a return, a jump and a halt does; data does not.
pub open spec fn falls_through(l: Line) -> bool {
    match l.nucleus {
        Nucleus::Directive => false,
        Nucleus::Instr(i) => !(i is Ret || i is Jmp || i is Halt),
    }
}

/// Whether the line at `a` is a `JSR` to `t`.
pub open spec fn jsr_at(m: Map<u16, Line>, a: u16, t: u16) -> bool {
    m.dom().contains(a) && (m[a].nucleus matches Nucleus::Instr(Instr::Jsr(off)) && pc_target(a, off) == t)
}

/// The successors that the scan of code follows from the line at `a`: the
/// next word where it falls through, and the destination of a `BR` or `JSR`.
pub open spec fn scan_succ(m: Map<u16, Line>, a: u16, s: u16) -> bool {
    m.dom().contains(a) && {
        ||| falls_through(m[a]) && s == next_addr(a)
        ||| (m[a].nucleus matches Nucleus::Instr(Instr::Br(_, off)) && s == pc_target(a, off))
        ||| (m[a].nucleus matches Nucleus::Instr(Instr::Jsr(off)) && s == pc_target(a, off))
    }
}

/// A set of addresses that holds `0x3000` and every successor of its
/// members.
pub open spec fn scan_closed(m: Map<u16, Line>, w: Set<u16>) -> bool {
    &&& w.contains(0x3000u16)
    &&& forall|a: u16, s: u16| #[trigger] w.contains(a) && #[trigger] scan_succ(m, a, s) ==> w.contains(s)
}

/// The addresses that the scan of code reaches from `0x3000`: the least
/// closed set.
pub open spec fn code_reach(m: Map<u16, Line>, v: Set<u16>) -> bool {
    &&& scan_closed(m, v)
    &&& forall|w: Set<u16>| #[trigger] scan_closed(m, w) ==> v.subset_of(w)
}

/// Whether some reached line is a `JSR` to `t`.
pub open spec fn call_target(m: Map<u16, Line>, v: Set<u16>, t: u16) -> bool {
    exists|a: u16| #[trigger] v.contains(a) && jsr_at(m, a, t)
}

/// Whether the scan of code goes from the line at `a` to `t` other than by a
/// call: by falling through or by a branch.
pub open spec fn flow_succ(m: Map<u16, Line>, a: u16, t: u16) -> bool {
    m.dom().contains(a) && {
        ||| falls_through(m[a]) && t == next_addr(a)
        ||| (m[a].nucleus matches Nucleus::Instr(Instr::Br(_, off)) && t == pc_target(a, off))
    }
}

/// Whether some line of `v` falls through or branches to `t`.
pub open spec fn flow_entered(m: Map<u16, Line>, v: Set<u16>, t: u16) -> bool {
    exists|a: u16| #[trigger] v.contains(a) && flow_succ(m, a, t)
}

/// `flow_entered` holds of every larger set of lines.
proof fn lemma_flow_entered_mono(m: Map<u16, Line>, v: Set<u16>, v2: Set<u16>, t: u16)
    requires
        v.subset_of(v2),
        flow_entered(m, v, t),
    ensures
        flow_entered(m, v2, t),
{
    let a = choose|a: u16| #[trigger] v.contains(a) && flow_succ(m, a, t);
    assert(v2.contains(a));
}

/// Every member of `s` is in every closed set.
pub open spec fn in_every_closed(m: Map<u16, Line>, s: Set<u16>) -> bool {
    forall|w: Set<u16>| #[trigger] scan_closed(m, w) ==> s.subset_of(w)
}

/// `call_target` holds of every larger set of reached lines.
proof fn lemma_call_target_mono(m: Map<u16, Line>, v: Set<u16>, v2: Set<u16>, t: u16)
    requires
        v.subset_of(v2),
        call_target(m, v, t),
    ensures
        call_target(m, v2, t),
{
    let a = choose|a: u16| #[trigger] v.contains(a) && jsr_at(m, a, t);
    assert(v2.contains(a));
}

/// After the last entry of a worklist is taken off, the rest and the entry
/// are in every closed set that held the whole list.
proof fn lemma_pop_closed(m: Map<u16, Line>, before: Seq<u16>, after: Seq<u16>)
    requires
        before.len() > 0,
        after == before.drop_last(),
        in_every_closed(m, before.to_set()),
    ensures
        in_every_closed(m, after.to_set()),
        forall|w: Set<u16>| #[trigger] scan_closed(m, w) ==> w.contains(before.last()),
        forall|x: u16| before.contains(x) ==> after.contains(x) || x == before.last(),
{
    assert forall|w: Set<u16>| #[trigger] scan_closed(m, w) implies after.to_set().subset_of(w) && w.contains(before.last()) by {
        assert(before.to_set().subset_of(w));
        assert forall|x: u16| after.to_set().contains(x) implies w.contains(x) by {
            assert(after.contains(x));
            let k = choose|k: int| 0 <= k < after.len() && after[k] == x;
            assert(before[k] == x);
            assert(before.to_set().contains(x));
        }
        assert(before[before.len() - 1] == before.last());
        assert(before.to_set().contains(before.last()));
    }
    assert forall|x: u16| before.contains(x) implies after.contains(x) || x == before.last() by {
        let k = choose|k: int| 0 <= k < before.len() && before[k] == x;
        if k < before.len() - 1 {
            assert(after[k] == x);
        }
    }
}

/// After an entry that every closed set holds is added to a worklist, every
/// closed set holds the whole list.
proof fn lemma_push_closed(m: Map<u16, Line>, before: Seq<u16>, t: u16)
    requires
        in_every_closed(m, before.to_set()),
        forall|w: Set<u16>| #[trigger] scan_closed(m, w) ==> w.contains(t),
    ensures
        in_every_closed(m, before.push(t).to_set()),
        forall|x: u16| before.contains(x) ==> before.push(t).contains(x),
        before.push(t).contains(t),
{
    let after = before.push(t);
    assert forall|w: Set<u16>| #[trigger] scan_closed(m, w) implies after.to_set().subset_of(w) by {
        assert(before.to_set().subset_of(w));
        assert forall|x: u16| after.to_set().contains(x) implies w.contains(x) by {
            assert(after.contains(x));
            let k = choose|k: int| 0 <= k < after.len() && after[k] == x;
            if k < before.len() {
                assert(before[k] == x);
                assert(before.to_set().contains(x));
            }
        }
    }
    assert forall|x: u16| before.contains(x) implies after.contains(x) by {
        let k = choose|k: int| 0 <= k < before.len() && before[k] == x;
        assert(after[k] == x);
    }
    assert(after[before.len() as int] == t);
}

/// The successors of a reached line are in every closed set.
proof fn lemma_succ_closed(m: Map<u16, Line>, a: u16, s: u16)
    requires
        forall|w: Set<u16>| #[trigger] scan_closed(m, w) ==> w.contains(a),
        scan_succ(m, a, s),
    ensures
        forall|w: Set<u16>| #[trigger] scan_closed(m, w) ==> w.contains(s),
{
    assert forall|w: Set<u16>| #[trigger] scan_closed(m, w) implies w.contains(s) by {
        assert(w.contains(a) && scan_succ(m, a, s));
    }
}

/// After the last entry of a worklist of flow-entered addresses is taken off,
/// the entry and the rest are flow-entered.
proof fn lemma_pop_flow(m: Map<u16, Line>, v: Set<u16>, before: Seq<u16>, after: Seq<u16>)
    requires
        before.len() > 0,
        after == before.drop_last(),
        forall|i: int| 0 <= i < before.len() ==> flow_entered(m, v, #[trigger] before[i]),
    ensures
        forall|i: int| 0 <= i < after.len() ==> flow_entered(m, v, #[trigger] after[i]),
        flow_entered(m, v, before.last()),
{
    assert forall|i: int| 0 <= i < after.len() implies flow_entered(m, v, #[trigger] after[i]) by {
        assert(after[i] == before[i]);
    }
    assert(before[before.len() - 1] == before.last());
}

/// Pops the last entry of a worklist.
fn pop_last(v: &mut Vec<u16>) -> (r: Option<u16>)
    ensures
        old(v)@.len() == 0 ==> r is None && final(v)@ == old(v)@,
        old(v)@.len() > 0 ==> r == Some(old(v)@.last()) && final(v)@ == old(v)@.drop_last(),
{
    v.pop()
}

/// The address after `a`, wrapping around.
fn next_address(a: u16) -> (r: u16)
    ensures
        r == next_addr(a),
{
    if a == 0xFFFF {
        0
    } else {
        a + 1
    }
}

/// The state of the scan for function entries: the calls still to follow,
/// the entries found so far, the addresses still to scan in the current
/// function, the addresses scanned, the address being scanned, and whether a
/// function is being scanned.
pub type EntryScan = (Seq<u16>, Seq<u16>, Seq<u16>, Set<u16>, u16, bool);

/// The scan goes on with the last address still to scan in the current
/// function, or ends the function where there is none.
pub open spec fn scan_resume(s: EntryScan, v: Set<u16>) -> EntryScan {
    if s.2.len() > 0 {
        (s.0, s.1, s.2.drop_last(), v, s.2.last(), true)
    } else {
        (s.0, s.1, s.2, v, s.4, false)
    }
}

/// One step of the scan: between functions, the last call is taken, and
/// starts a function where its address was not scanned yet; within a
/// function, an address not scanned yet is scanned: a `BR` schedules its
/// destination, a `JSR` adds a call, both then go on to the next address; a
/// return, jump, halt, data or unknown word ends the path; any other
/// instruction goes on to the next address.
pub open spec fn scan_step(m: Map<u16, Line>, s: EntryScan) -> EntryScan {
    let (calls, funcs, work, vis, addr, inner) = s;
    if !inner {
        if calls.len() == 0 {
            s
        } else if vis.contains(calls.last()) {
            (calls.drop_last(), funcs, work, vis, addr, false)
        } else {
            (calls.drop_last(), funcs.push(calls.last()), work, vis, calls.last(), true)
        }
    } else if vis.contains(addr) {
        scan_resume(s, vis)
    } else if !m.dom().contains(addr) {
        scan_resume(s, vis.insert(addr))
    } else {
        let v = vis.insert(addr);
        match m[addr].nucleus {
            Nucleus::Instr(Instr::Br(_, off)) => (calls, funcs, work.push(pc_target(addr, off)), v, next_addr(addr), true),
            Nucleus::Instr(Instr::Jsr(off)) => (calls.push(pc_target(addr, off)), funcs, work, v, next_addr(addr), true),
            Nucleus::Instr(Instr::Ret) => scan_resume(s, v),
            Nucleus::Instr(Instr::Jmp(_)) => scan_resume(s, v),
            Nucleus::Instr(Instr::Halt) => scan_resume(s, v),
            Nucleus::Directive => scan_resume(s, v),
            _ => (calls, funcs, work, v, next_addr(addr), true),
        }
    }
}

/// The scan run for at most `fuel` steps, or until no call is left between
/// functions.
pub open spec fn scan_run(m: Map<u16, Line>, s: EntryScan, fuel: nat) -> EntryScan
    decreases fuel,
{
    if fuel == 0 || (!s.5 && s.0.len() == 0) {
        s
    } else {
        scan_run(m, scan_step(m, s), (fuel - 1) as nat)
    }
}

/// The entry points that the scan finds, in order, starting from the call
/// at `0x3000` (the scan ends within this many steps).
pub open spec fn scan_entries(m: Map<u16, Line>) -> Seq<u16> {
    scan_run(m, (seq![0x3000u16], Seq::empty(), Seq::empty(), Set::empty(), 0, false), 0x40010).1
}

/// The entry points of the program's functions: `0x3000` first, then, as the
/// scan of code from there (through branches, fall-through and calls, with
/// calls followed last in first out) meets them, the destinations of `JSR`
/// instructions that it had not reached before. The list is exactly the one
/// of `scan_entries`; it starts at `0x3000`, holds no address twice, holds
/// only reached call targets, and holds every reached address that no branch
/// or fall-through enters.
#[verifier::rlimit(80)]
pub fn identify_code_data(disassembly: &AddrMap<Line>, _origs: Vec<u16>) -> (r: Vec<u16>)
    requires
        disassembly.wf(),
    ensures
        r@.len() >= 1,
        r@[0] == 0x3000,
        r@.no_duplicates(),
        r@ == scan_entries(disassembly.map()),
        exists|v: Set<u16>|
            #![trigger code_reach(disassembly.map(), v)]
            code_reach(disassembly.map(), v) && (forall|i: int| 0 <= i < r@.len() ==> v.contains(#[trigger] r@[i]))
                && (forall|i: int| 1 <= i < r@.len() ==> call_target(disassembly.map(), v, #[trigger] r@[i]))
                && (forall|t: u16| #[trigger] v.contains(t) && !flow_entered(disassembly.map(), v, t) ==> r@.contains(t)),
{
    let ghost m = disassembly.map();
    let mut call_list: Vec<u16> = vec![0x3000];
    let mut function_list: Vec<u16> = Vec::new();
    let mut work_list: Vec<u16> = Vec::new();
    let mut visited = AddrSet::new();
    let ghost init: EntryScan = (seq![0x3000u16], Seq::empty(), Seq::empty(), Set::empty(), 0u16, false);
    let ghost target = scan_run(m, init, 0x40010);
    let ghost mut st: EntryScan = init;
    let ghost mut fuel: nat = 0x40010;
    proof {
        assert forall|w: Set<u16>| #[trigger] scan_closed(m, w) implies call_list@.to_set().subset_of(w) by {
            assert forall|x: u16| call_list@.to_set().contains(x) implies w.contains(x) by {
                assert(call_list@.contains(x));
                assert(call_list@[0] == x);
            }
        }
    }
    while call_list.len() > 0
        invariant
            disassembly.wf(),
            m == disassembly.map(),
            visited.wf(),
            work_list@.len() == 0,
            function_list@.len() == 0 ==> call_list@ == seq![0x3000u16] && visited.set() == Set::<u16>::empty(),
            function_list@.len() > 0 ==> function_list@[0] == 0x3000 && visited.set().contains(0x3000u16),
            function_list@.no_duplicates(),
            forall|i: int| 0 <= i < function_list@.len() ==> visited.set().contains(#[trigger] function_list@[i]),
            forall|i: int| 1 <= i < function_list@.len() ==> call_target(m, visited.set(), #[trigger] function_list@[i]),
            forall|i: int| 0 <= i < call_list@.len() ==> call_list@[i] == 0x3000 || call_target(m, visited.set(), #[trigger] call_list@[i]),
            in_every_closed(m, visited.set()),
            in_every_closed(m, call_list@.to_set()),
            forall|a: u16, s: u16| #[trigger] visited.set().contains(a) && #[trigger] scan_succ(m, a, s) ==> visited.set().contains(s) || call_list@.contains(s),
            forall|x: u16| #[trigger] visited.set().contains(x) ==> function_list@.contains(x) || flow_entered(m, visited.set(), x),
            st.0 == call_list@ && st.1 == function_list@ && st.2 == work_list@ && st.3 == visited.set() && !st.5,
            4 * (0x10000 - visited.count) + 2 * call_list@.len() < fuel,
            scan_run(m, st, fuel) == target,
        decreases 0x10000 - visited.count, call_list@.len(),
    {
        proof {
            visited.lemma_count_bound();
        }
        let ghost c_before = call_list@;
        let mut addr = match pop_last(&mut call_list) {
            Some(a) => a,
            None => 0,
        };
        proof {
            lemma_pop_closed(m, c_before, call_list@);
            assert forall|i: int| 0 <= i < call_list@.len() implies call_list@[i] == 0x3000 || call_target(m, visited.set(), #[trigger] call_list@[i]) by {
                assert(call_list@[i] == c_before[i]);
            }
            assert(c_before[c_before.len() - 1] == addr);
        }
        let ghost st1 = scan_step(m, st);
        proof {
            assert(scan_run(m, st, fuel) == scan_run(m, st1, (fuel - 1) as nat));
            st = st1;
            fuel = (fuel - 1) as nat;
        }
        if visited.contains(addr) {
            continue;
        }
        let ghost was_empty = function_list@.len() == 0;
        let ghost f_before = function_list@;
        let ghost a0 = addr;
        let ghost v0 = visited.set();
        let ghost c0 = visited.count;
        function_list.push(addr);
        proof {
            if was_empty {
                assert(addr == 0x3000);
            }
        }
        loop
            invariant_except_break
                st.0 == call_list@ && st.1 == function_list@ && st.2 == work_list@ && st.3 == visited.set() && st.4 == addr && st.5,
                4 * (0x10000 - visited.count) + 2 * call_list@.len() + work_list@.len() + 1 < fuel,
            invariant
                disassembly.wf(),
                m == disassembly.map(),
                visited.wf(),
                visited.count >= c0,
                visited.set().contains(a0) ==> visited.count > c0,
                visited.set().contains(a0) || addr == a0,
                !v0.contains(a0),
                v0.subset_of(visited.set()),
                function_list@ == f_before.push(a0),
                was_empty ==> f_before.len() == 0 && a0 == 0x3000,
                !was_empty ==> f_before.len() > 0 && f_before[0] == 0x3000 && v0.contains(0x3000u16) && a0 != 0x3000
                    && call_target(m, v0, a0),
                f_before.no_duplicates(),
                forall|i: int| 0 <= i < f_before.len() ==> v0.contains(#[trigger] f_before[i]),
                forall|i: int| 1 <= i < f_before.len() ==> call_target(m, v0, #[trigger] f_before[i]),
                forall|i: int| 0 <= i < call_list@.len() ==> call_list@[i] == 0x3000 || call_target(m, visited.set(), #[trigger] call_list@[i]),
                in_every_closed(m, visited.set()),
                in_every_closed(m, call_list@.to_set()),
                in_every_closed(m, work_list@.to_set()),
                forall|w: Set<u16>| #[trigger] scan_closed(m, w) ==> w.contains(addr),
                forall|a: u16, s: u16| #[trigger] visited.set().contains(a) && #[trigger] scan_succ(m, a, s) ==> visited.set().contains(s) || call_list@.contains(s) || work_list@.contains(s) || s == addr,
                forall|x: u16| #[trigger] visited.set().contains(x) ==> x == a0 || f_before.contains(x) || flow_entered(m, visited.set(), x),
                addr == a0 || flow_entered(m, visited.set(), addr),
                forall|i: int| 0 <= i < work_list@.len() ==> flow_entered(m, visited.set(), #[trigger] work_list@[i]),
                scan_run(m, st, fuel) == target,
            ensures
                work_list@.len() == 0,
                visited.wf(),
                visited.count > c0,
                visited.set().contains(a0),
                v0.subset_of(visited.set()),
                forall|i: int| 0 <= i < call_list@.len() ==> call_list@[i] == 0x3000 || call_target(m, visited.set(), #[trigger] call_list@[i]),
                in_every_closed(m, visited.set()),
                in_every_closed(m, call_list@.to_set()),
                forall|a: u16, s: u16| #[trigger] visited.set().contains(a) && #[trigger] scan_succ(m, a, s) ==> visited.set().contains(s) || call_list@.contains(s),
                forall|x: u16| #[trigger] visited.set().contains(x) ==> x == a0 || f_before.contains(x) || flow_entered(m, visited.set(), x),
                st.0 == call_list@ && st.1 == function_list@ && st.2 == work_list@ && st.3 == visited.set() && !st.5,
                4 * (0x10000 - visited.count) + 2 * call_list@.len() < fuel,
                scan_run(m, st, fuel) == target,
            decreases 0x10000 - visited.count, work_list@.len(),
        {
            proof {
                visited.lemma_count_bound();
            }
            let ghost st1 = scan_step(m, st);
            proof {
                assert(scan_run(m, st, fuel) == scan_run(m, st1, (fuel - 1) as nat));
            }
            let ghost w_before = work_list@;
            if visited.contains(addr) {
                match pop_last(&mut work_list) {
                    Some(next) => {
                        proof {
                            lemma_pop_closed(m, w_before, work_list@);
                            lemma_pop_flow(m, visited.set(), w_before, work_list@);
                            assert(w_before[w_before.len() - 1] == next);
                        }
                        addr = next;
                        proof {
                            st = st1;
                            fuel = (fuel - 1) as nat;
                        }
                        continue;
                    },
                    None => {
                        proof {
                            st = st1;
                            fuel = (fuel - 1) as nat;
                        }
                        break;
                    },
                }
            }
            let ghost vb = visited.set();
            visited.insert(addr);
            proof {
                visited.lemma_count_bound();
                assert forall|w: Set<u16>| #[trigger] scan_closed(m, w) implies visited.set().subset_of(w) by {
                    assert(vb.subset_of(w));
                }
                assert forall|i: int| 0 <= i < call_list@.len() implies call_list@[i] == 0x3000 || call_target(m, visited.set(), #[trigger] call_list@[i]) by {
                    if call_list@[i] != 0x3000 {
                        lemma_call_target_mono(m, vb, visited.set(), call_list@[i]);
                    }
                }
                let vs = visited.set();
                assert(vb.subset_of(vs));
                assert forall|x: u16| #[trigger] vs.contains(x) implies x == a0 || f_before.contains(x) || flow_entered(m, vs, x) by {
                    if x != addr && x != a0 && !f_before.contains(x) {
                        assert(vb.contains(x));
                        lemma_flow_entered_mono(m, vb, vs, x);
                    }
                    if x == addr && x != a0 {
                        lemma_flow_entered_mono(m, vb, vs, x);
                    }
                }
                if addr != a0 {
                    lemma_flow_entered_mono(m, vb, vs, addr);
                }
                assert forall|i: int| 0 <= i < work_list@.len() implies flow_entered(m, vs, #[trigger] work_list@[i]) by {
                    lemma_flow_entered_mono(m, vb, vs, work_list@[i]);
                }
            }
            let line = match disassembly.get(addr) {
                Some(l) => *l,
                None => {
                    match pop_last(&mut work_list) {
                        Some(next) => {
                            proof {
                                lemma_pop_closed(m, w_before, work_list@);
                                lemma_pop_flow(m, visited.set(), w_before, work_list@);
                                assert(w_before[w_before.len() - 1] == next);
                            }
                            addr = next;
                            proof {
                                st = st1;
                                fuel = (fuel - 1) as nat;
                            }
                            continue;
                        },
                        None => {
                            proof {
                                st = st1;
                                fuel = (fuel - 1) as nat;
                            }
                            break;
                        },
                    }
                },
            };
            proof {
                assert(m.dom().contains(addr) && m[addr] == line);
            }
            let mut stop = false;
            match line.nucleus {
                Nucleus::Instr(Instr::Br(_, off)) => {
                    let t = pc_relative(addr, off);
                    proof {
                        assert(scan_succ(m, addr, t));
                        lemma_succ_closed(m, addr, t);
                        lemma_push_closed(m, work_list@, t);
                        assert(visited.set().contains(addr) && flow_succ(m, addr, t));
                        assert(flow_entered(m, visited.set(), t));
                    }
                    let ghost wb = work_list@;
                    work_list.push(t);
                    proof {
                        assert forall|i: int| 0 <= i < work_list@.len() implies flow_entered(m, visited.set(), #[trigger] work_list@[i]) by {
                            if i < wb.len() {
                                assert(work_list@[i] == wb[i]);
                            }
                        }
                    }
                },
                Nucleus::Instr(Instr::Jsr(off)) => {
                    let t = pc_relative(addr, off);
                    proof {
                        assert(scan_succ(m, addr, t));
                        lemma_succ_closed(m, addr, t);
                        lemma_push_closed(m, call_list@, t);
                        assert(visited.set().contains(addr) && jsr_at(m, addr, t));
                        assert(call_target(m, visited.set(), t));
                    }
                    let ghost cb = call_list@;
                    call_list.push(t);
                    proof {
                        assert forall|i: int| 0 <= i < call_list@.len() implies call_list@[i] == 0x3000 || call_target(m, visited.set(), #[trigger] call_list@[i]) by {
                            if i < cb.len() {
                                assert(call_list@[i] == cb[i]);
                            }
                        }
                    }
                },
                Nucleus::Instr(Instr::Ret) => {
                    stop = true;
                },
                Nucleus::Instr(Instr::Jmp(_)) => {
                    stop = true;
                },
                Nucleus::Instr(Instr::Halt) => {
                    stop = true;
                },
                Nucleus::Directive => {
                    stop = true;
                },
                _ => {},
            }
            if stop {
                proof {
                    assert(!falls_through(line));
                }
                let ghost w1 = work_list@;
                match pop_last(&mut work_list) {
                    Some(next) => {
                        proof {
                            lemma_pop_closed(m, w1, work_list@);
                            lemma_pop_flow(m, visited.set(), w1, work_list@);
                            assert(w1[w1.len() - 1] == next);
                        }
                        addr = next;
                        proof {
                            st = st1;
                            fuel = (fuel - 1) as nat;
                        }
                        continue;
                    },
                    None => {
                        proof {
                            st = st1;
                            fuel = (fuel - 1) as nat;
                        }
                        break;
                    },
                }
            }
            proof {
                assert(falls_through(line));
                assert(scan_succ(m, addr, next_addr(addr)));
                lemma_succ_closed(m, addr, next_addr(addr));
                assert(visited.set().contains(addr) && flow_succ(m, addr, next_addr(addr)));
                assert(flow_entered(m, visited.set(), next_addr(addr)));
            }
            addr = next_address(addr);
            proof {
                st = st1;
                fuel = (fuel - 1) as nat;
            }
        }
        proof {
            visited.lemma_count_bound();
            assert forall|i: int| 0 <= i < function_list@.len() implies visited.set().contains(#[trigger] function_list@[i]) by {
                if i < f_before.len() {
                    assert(function_list@[i] == f_before[i]);
                }
            }
            assert forall|i: int| 1 <= i < function_list@.len() implies call_target(m, visited.set(), #[trigger] function_list@[i]) by {
                if i < f_before.len() {
                    assert(function_list@[i] == f_before[i]);
                    lemma_call_target_mono(m, v0, visited.set(), f_before[i]);
                } else {
                    lemma_call_target_mono(m, v0, visited.set(), a0);
                }
            }
            assert forall|i: int, j: int| 0 <= i < j < function_list@.len() implies function_list@[i] != function_list@[j] by {
                if j == function_list@.len() - 1 {
                    assert(v0.contains(f_before[i]));
                } else {
                    assert(function_list@[i] == f_before[i]);
                    assert(function_list@[j] == f_before[j]);
                }
            }
            if !was_empty {
                assert(function_list@[0] == f_before[0]);
            }
            assert forall|x: u16| #[trigger] visited.set().contains(x) implies function_list@.contains(x) || flow_entered(m, visited.set(), x) by {
                if x == a0 {
                    assert(function_list@[function_list@.len() - 1] == a0);
                } else if f_before.contains(x) {
                    let k = choose|k: int| 0 <= k < f_before.len() && f_before[k] == x;
                    assert(function_list@[k] == x);
                }
            }
        }
    }
    proof {
        let v = visited.set();
        assert forall|a: u16, s: u16| #[trigger] v.contains(a) && #[trigger] scan_succ(m, a, s) implies v.contains(s) by {
            assert(!call_list@.contains(s));
        }
        assert(scan_closed(m, v));
        assert(code_reach(m, v));
    }
    function_list
}

} // verus!
