use vstd::prelude::*;
use crate::addr_map::AddrMap;
use crate::cfg::{BasicBlock, NaturalLoop, copy_addrs, has_addr};

verus! {

/// A loop to structure: its header, its blocks, the block it exits to and
/// the block that jumps back to the header.
#[derive(Debug, Clone)]
pub struct Loop {
    pub header: u16,
    pub blocks: Vec<u16>,
    pub break_block: Option<u16>,
    pub continue_block: Option<u16>,
}

impl Loop {
    /// A loop with no blocks and no exits.
    pub fn new(header: u16) -> (l: Self)
        ensures
            l.header == header,
            l.blocks@.len() == 0,
            l.break_block is None,
            l.continue_block is None,
    {
        Loop { header, blocks: Vec::new(), break_block: None, continue_block: None }
    }
}

/// The shape of a conditional.
#[derive(Debug, Clone, Copy, PartialEq, Eq)]
pub enum ConditionalType {
    If,
    IfElse,
}

/// A conditional found in the control flow graph: the block that branches,
/// the blocks of its branches and the block where they meet.
#[derive(Debug, Clone, Copy, PartialEq, Eq)]
pub struct Conditional {
    pub kind: ConditionalType,
    pub condition_block: u16,
    pub true_block: u16,
    pub false_block: Option<u16>,
    pub join_block: u16,
}

/// `a` followed by the elements of `b` it does not hold yet, in order.
pub open spec fn append_new(a: Seq<u16>, b: Seq<u16>) -> Seq<u16>
    decreases b.len(),
{
    if b.len() == 0 {
        a
    } else {
        let r = append_new(a, b.drop_last());
        if r.contains(b.last()) {
            r
        } else {
            r.push(b.last())
        }
    }
}

/// The index of the first merged loop from `i` on with header `h`, or -1.
pub open spec fn find_header(m: Seq<(u16, Seq<u16>)>, h: u16, i: int) -> int
    decreases m.len() - i,
{
    if i < 0 || i >= m.len() {
        -1
    } else if m[i].0 == h {
        i
    } else {
        find_header(m, h, i + 1)
    }
}

/// The natural loops with their blocks merged per header, in the order their
/// headers first occur.
pub open spec fn merge_loops(s: Seq<NaturalLoop>) -> Seq<(u16, Seq<u16>)>
    decreases s.len(),
{
    if s.len() == 0 {
        Seq::empty()
    } else {
        let m = merge_loops(s.drop_last());
        let l = s.last();
        let k = find_header(m, l.header, 0);
        if k >= 0 {
            m.update(k, (m[k].0, append_new(m[k].1, l.blocks@)))
        } else {
            m.push((l.header, append_new(Seq::empty(), l.blocks@)))
        }
    }
}

/// The index of the first loop from `i` on with more blocks than `n`.
pub open spec fn len_pos(s: Seq<(u16, Seq<u16>)>, n: nat, i: int) -> int
    decreases s.len() - i,
{
    if i < 0 || i >= s.len() || s[i].1.len() > n {
        i
    } else {
        len_pos(s, n, i + 1)
    }
}

/// The loops stably sorted by their number of blocks, smallest first.
pub open spec fn sort_by_size(s: Seq<(u16, Seq<u16>)>) -> Seq<(u16, Seq<u16>)>
    decreases s.len(),
{
    if s.len() == 0 {
        Seq::empty()
    } else {
        let r = sort_by_size(s.drop_last());
        r.insert(len_pos(r, s.last().1.len(), 0), s.last())
    }
}

/// The first successor from the `j`th on that is not in `l`.
pub open spec fn first_outside(succs: Seq<u16>, l: Seq<u16>, j: int) -> Option<u16>
    decreases succs.len() - j,
{
    if j < 0 || j >= succs.len() {
        None
    } else if !l.contains(succs[j]) {
        Some(succs[j])
    } else {
        first_outside(succs, l, j + 1)
    }
}

/// The first successor outside the loop of a block of the loop, from its
/// `i`th block on.
pub open spec fn exit_from(g: Map<u16, BasicBlock>, l: Seq<u16>, i: int) -> Option<u16>
    decreases l.len() - i,
{
    if i < 0 || i >= l.len() {
        None
    } else {
        let r = if g.dom().contains(l[i]) {
            first_outside(g[l[i]].succs@, l, 0)
        } else {
            None
        };
        if r is Some {
            r
        } else {
            exit_from(g, l, i + 1)
        }
    }
}

/// The first block of the loop, from its `i`th on, that has the header as a
/// successor.
pub open spec fn latch_from(g: Map<u16, BasicBlock>, l: Seq<u16>, header: u16, i: int) -> Option<u16>
    decreases l.len() - i,
{
    if i < 0 || i >= l.len() {
        None
    } else if g.dom().contains(l[i]) && g[l[i]].succs@.contains(header) {
        Some(l[i])
    } else {
        latch_from(g, l, header, i + 1)
    }
}

/// What `identify_loops` makes of one merged loop.
pub open spec fn loop_of(g: Map<u16, BasicBlock>, m: (u16, Seq<u16>)) -> (u16, Seq<u16>, Option<u16>, Option<u16>) {
    (m.0, m.1, exit_from(g, m.1, 0), latch_from(g, m.1, m.0, 0))
}

/// The fields of a loop.
pub open spec fn loop_fields(l: Loop) -> (u16, Seq<u16>, Option<u16>, Option<u16>) {
    (l.header, l.blocks@, l.break_block, l.continue_block)
}

pub proof fn lemma_find_header(m: Seq<(u16, Seq<u16>)>, h: u16, i: int)
    ensures
        find_header(m, h, i) >= 0 ==> 0 <= find_header(m, h, i) < m.len() && m[find_header(m, h, i)].0 == h,
    decreases m.len() - i,
{
    if 0 <= i < m.len() && m[i].0 != h {
        lemma_find_header(m, h, i + 1);
    }
}

pub proof fn lemma_sort_by_size_len(s: Seq<(u16, Seq<u16>)>)
    ensures
        sort_by_size(s).len() == s.len(),
    decreases s.len(),
{
    if s.len() > 0 {
        lemma_sort_by_size_len(s.drop_last());
        lemma_len_pos(sort_by_size(s.drop_last()), s.last().1.len(), 0);
    }
}

pub proof fn lemma_len_pos(s: Seq<(u16, Seq<u16>)>, n: nat, i: int)
    requires
        0 <= i <= s.len(),
    ensures
        i <= len_pos(s, n, i) <= s.len(),
    decreases s.len() - i,
{
    if i < s.len() && s[i].1.len() <= n {
        lemma_len_pos(s, n, i + 1);
    }
}

/// The position of the first merged loop with header `h`.
fn find_merged(m: &Vec<(u16, Vec<u16>)>, h: u16) -> (r: Option<usize>)
    ensures
        r matches Some(k) ==> k < m@.len() && find_header(merged_view(m@), h, 0) == k,
        r is None ==> find_header(merged_view(m@), h, 0) == -1,
{
    let ghost mv = merged_view(m@);
    let mut i: usize = 0;
    while i < m.len()
        invariant
            i <= m@.len(),
            mv == merged_view(m@),
            find_header(mv, h, 0) == find_header(mv, h, i as int),
        decreases m@.len() - i,
    {
        if m[i].0 == h {
            return Some(i);
        }
        i = i + 1;
    }
    None
}

/// The model of merged loops.
pub open spec fn merged_view(m: Seq<(u16, Vec<u16>)>) -> Seq<(u16, Seq<u16>)> {
    Seq::new(m.len(), |i: int| (m[i].0, m[i].1@))
}

/// Appends to `a` the elements of `b` it does not hold yet.
fn append_missing(a: &mut Vec<u16>, b: &Vec<u16>)
    ensures
        final(a)@ == append_new(old(a)@, b@),
{
    let ghost a0 = a@;
    let mut j: usize = 0;
    while j < b.len()
        invariant
            j <= b@.len(),
            a@ == append_new(a0, b@.subrange(0, j as int)),
        decreases b@.len() - j,
    {
        proof {
            let x = b@.subrange(0, j + 1);
            assert(x.drop_last() =~= b@.subrange(0, j as int));
        }
        if !has_addr(a, b[j]) {
            a.push(b[j]);
        }
        j = j + 1;
    }
    proof {
        assert(b@.subrange(0, j as int) =~= b@);
    }
}

/// The first successor of `succs` not in `l`.
fn first_outside_of(succs: &Vec<u16>, l: &Vec<u16>) -> (r: Option<u16>)
    ensures
        r == first_outside(succs@, l@, 0),
{
    let mut j: usize = 0;
    while j < succs.len()
        invariant
            j <= succs@.len(),
            first_outside(succs@, l@, 0) == first_outside(succs@, l@, j as int),
        decreases succs@.len() - j,
    {
        if !has_addr(l, succs[j]) {
            return Some(succs[j]);
        }
        j = j + 1;
    }
    None
}

/// Merges the natural loops that share a header, sorts them from the
/// smallest to the largest, and finds for each the block it exits to (the
/// first successor outside the loop of one of its blocks) and the block that
/// jumps back to its header.
pub fn identify_loops(natural_loops: &mut Vec<NaturalLoop>, blocks: &AddrMap<BasicBlock>) -> (loops: Vec<Loop>)
    requires
        blocks.wf(),
    ensures
        final(natural_loops)@ == old(natural_loops)@,
        loops@.len() == merge_loops(old(natural_loops)@).len(),
        forall|i: int| 0 <= i < loops@.len() ==> loop_fields(#[trigger] loops@[i]) == loop_of(
            blocks.map(),
            sort_by_size(merge_loops(old(natural_loops)@))[i],
        ),
        loops_merged(old(natural_loops)@, loops@),
        forall|i: int| 0 <= i < loops@.len() ==> loop_exits_ok(blocks.map(), #[trigger] loops@[i]),
{
    let ghost g = blocks.map();
    let ghost nl = natural_loops@;
    let mut merged: Vec<(u16, Vec<u16>)> = Vec::new();
    let mut n: usize = 0;
    proof {
        assert(merged_view(merged@) =~= merge_loops(nl.subrange(0, 0)));
    }
    while n < natural_loops.len()
        invariant
            n <= nl.len(),
            nl == natural_loops@,
            merged_view(merged@) == merge_loops(nl.subrange(0, n as int)),
        decreases nl.len() - n,
    {
        let ghost m0 = merged_view(merged@);
        proof {
            let x = nl.subrange(0, n + 1);
            assert(x.drop_last() =~= nl.subrange(0, n as int));
            assert(x.last() == nl[n as int]);
        }
        let header = natural_loops[n].header;
        match find_merged(&merged, header) {
            Some(k) => {
                let mut nb = copy_addrs(&merged[k].1);
                append_missing(&mut nb, &natural_loops[n].blocks);
                proof {
                    lemma_find_header(m0, header, 0);
                }
                merged.set(k, (header, nb));
                proof {
                    assert(merged_view(merged@) =~= m0.update(k as int, (m0[k as int].0, append_new(m0[k as int].1, nl[n as int].blocks@))));
                }
            },
            None => {
                let mut nb: Vec<u16> = Vec::new();
                append_missing(&mut nb, &natural_loops[n].blocks);
                merged.push((header, nb));
                proof {
                    assert(merged_view(merged@) =~= m0.push((header, append_new(Seq::empty(), nl[n as int].blocks@))));
                }
            },
        }
        n = n + 1;
    }
    proof {
        assert(nl.subrange(0, n as int) =~= nl);
    }
    let ghost mm = merged_view(merged@);
    let mut sorted: Vec<(u16, Vec<u16>)> = Vec::new();
    let mut q: usize = 0;
    proof {
        assert(merged_view(sorted@) =~= sort_by_size(mm.subrange(0, 0)));
    }
    while q < merged.len()
        invariant
            q <= merged@.len(),
            mm == merged_view(merged@),
            merged_view(sorted@) == sort_by_size(mm.subrange(0, q as int)),
        decreases merged@.len() - q,
    {
        let ghost s0 = merged_view(sorted@);
        proof {
            let x = mm.subrange(0, q + 1);
            assert(x.drop_last() =~= mm.subrange(0, q as int));
            assert(x.last() == mm[q as int]);
        }
        let size = merged[q].1.len();
        let mut pos: usize = 0;
        while pos < sorted.len() && sorted[pos].1.len() <= size
            invariant
                pos <= sorted@.len(),
                s0 == merged_view(sorted@),
                len_pos(s0, size as nat, 0) == len_pos(s0, size as nat, pos as int),
            decreases sorted@.len() - pos,
        {
            pos = pos + 1;
        }
        let entry = (merged[q].0, copy_addrs(&merged[q].1));
        sorted.insert(pos, entry);
        proof {
            assert(merged_view(sorted@) =~= s0.insert(pos as int, mm[q as int]));
        }
        q = q + 1;
    }
    proof {
        assert(mm.subrange(0, q as int) =~= mm);
    }
    let ghost ss = merged_view(sorted@);
    proof {
        lemma_sort_by_size_len(mm);
        assert(mm.len() == merge_loops(nl).len());
    }
    let mut loops: Vec<Loop> = Vec::new();
    let mut i: usize = 0;
    while i < sorted.len()
        invariant
            i <= sorted@.len(),
            ss == merged_view(sorted@),
            blocks.wf(),
            g == blocks.map(),
            loops@.len() == i,
            ss == sort_by_size(merge_loops(nl)),
            forall|k: int| 0 <= k < i ==> loop_fields(#[trigger] loops@[k]) == loop_of(g, ss[k]),
        decreases sorted@.len() - i,
    {
        let header = sorted[i].0;
        let lb = &sorted[i].1;
        let mut break_block: Option<u16> = None;
        let mut b: usize = 0;
        while b < lb.len()
            invariant_except_break
                break_block is None,
            invariant
                b <= lb@.len(),
                blocks.wf(),
                g == blocks.map(),
                exit_from(g, lb@, 0) == exit_from(g, lb@, b as int),
            ensures
                break_block == exit_from(g, lb@, 0),
            decreases lb@.len() - b,
        {
            let found = match blocks.get(lb[b]) {
                Some(block) => first_outside_of(&block.succs, lb),
                None => None,
            };
            if found.is_some() {
                break_block = found;
                break;
            }
            b = b + 1;
        }
        let mut continue_block: Option<u16> = None;
        let mut c: usize = 0;
        while c < lb.len()
            invariant_except_break
                continue_block is None,
            invariant
                c <= lb@.len(),
                blocks.wf(),
                g == blocks.map(),
                latch_from(g, lb@, header, 0) == latch_from(g, lb@, header, c as int),
            ensures
                continue_block == latch_from(g, lb@, header, 0),
            decreases lb@.len() - c,
        {
            let is_latch = match blocks.get(lb[c]) {
                Some(block) => has_addr(&block.succs, header),
                None => false,
            };
            if is_latch {
                continue_block = Some(lb[c]);
                break;
            }
            c = c + 1;
        }
        let l = Loop { header, blocks: copy_addrs(lb), break_block, continue_block };
        let ghost l0 = loops@;
        loops.push(l);
        proof {
            assert forall|k: int| 0 <= k < i + 1 implies loop_fields(#[trigger] loops@[k]) == loop_of(g, ss[k]) by {
                if k < i {
                    assert(loops@[k] == l0[k]);
                }
            }
        }
        i = i + 1;
    }
    proof {
        lemma_sort_by_size_len(merge_loops(nl));
        lemma_loops_from_model(nl, g, loops@);
    }
    loops
}

/// One step of the search for conditionals over the blocks in address order:
/// the conditionals found so far and the blocks they use.
pub open spec fn cond_step(g: Map<u16, BasicBlock>, a: u16, st: (Seq<Conditional>, Seq<u16>)) -> (
    Seq<Conditional>,
    Seq<u16>,
) {
    let (cs, h) = st;
    if h.contains(a) || !g.dom().contains(a) || g[a].succs@.len() != 2 {
        st
    } else {
        let s1 = g[a].succs@[0];
        let s2 = g[a].succs@[1];
        if h.contains(s1) || h.contains(s2) || !g.dom().contains(s1) || !g.dom().contains(s2) {
            st
        } else {
            let t1 = g[s1].succs@;
            let t2 = g[s2].succs@;
            if t1.len() == 1 && t2.len() == 1 && t1[0] == t2[0] {
                (
                    cs.push(
                        Conditional {
                            kind: ConditionalType::IfElse,
                            condition_block: a,
                            true_block: s1,
                            false_block: Some(s2),
                            join_block: t1[0],
                        },
                    ),
                    h.push(a).push(s1).push(s2),
                )
            } else if t1.len() == 1 && t1[0] == s2 {
                (
                    cs.push(
                        Conditional {
                            kind: ConditionalType::If,
                            condition_block: a,
                            true_block: s1,
                            false_block: None,
                            join_block: s2,
                        },
                    ),
                    h.push(a).push(s1),
                )
            } else if t2.len() == 1 && t2[0] == s1 {
                (
                    cs.push(
                        Conditional {
                            kind: ConditionalType::If,
                            condition_block: a,
                            true_block: s2,
                            false_block: None,
                            join_block: s1,
                        },
                    ),
                    h.push(a).push(s2),
                )
            } else {
                st
            }
        }
    }
}

/// The search for conditionals over blocks at the addresses `keys`, in order.
pub open spec fn cond_scan(g: Map<u16, BasicBlock>, keys: Seq<u16>) -> (Seq<Conditional>, Seq<u16>)
    decreases keys.len(),
{
    if keys.len() == 0 {
        (Seq::empty(), Seq::empty())
    } else {
        cond_step(g, keys.last(), cond_scan(g, keys.drop_last()))
    }
}

/// Finds if-else diamonds and simple ifs, walking the blocks in address
/// order; a block that belongs to a conditional found earlier starts none.
pub fn identify_conditionals(blocks: &AddrMap<BasicBlock>) -> (conditionals: Vec<Conditional>)
    requires
        blocks.wf(),
    ensures
        conditionals@ == cond_scan(blocks.map(), blocks.key_seq()).0,
        forall|i: int| 0 <= i < conditionals@.len() ==> cond_shape(blocks.map(), #[trigger] conditionals@[i]),
        forall|i: int, j: int|
            0 <= i < j < conditionals@.len() ==> (#[trigger] conditionals@[i]).condition_block < (#[trigger] conditionals@[j]).condition_block,
        forall|i: int, j: int, x: u16|
            0 <= i < j < conditionals@.len() ==> !(#[trigger] cond_uses(conditionals@[i], x) && #[trigger] cond_uses(conditionals@[j], x)),
{
    let ghost g = blocks.map();
    let block_addrs = blocks.keys();
    let mut conditionals: Vec<Conditional> = Vec::new();
    let mut handled: Vec<u16> = Vec::new();
    let mut i: usize = 0;
    while i < block_addrs.len()
        invariant
            i <= block_addrs@.len(),
            blocks.wf(),
            g == blocks.map(),
            block_addrs@ == blocks.key_seq(),
            (conditionals@, handled@) == cond_scan(g, block_addrs@.subrange(0, i as int)),
        decreases block_addrs@.len() - i,
    {
        proof {
            let x = block_addrs@.subrange(0, i + 1);
            assert(x.drop_last() =~= block_addrs@.subrange(0, i as int));
            assert(x.last() == block_addrs@[i as int]);
        }
        let block_addr = block_addrs[i];
        i = i + 1;
        if has_addr(&handled, block_addr) {
            continue;
        }
        let head_block = match blocks.get(block_addr) {
            Some(b) => b,
            None => {
                continue;
            },
        };
        if head_block.succs.len() != 2 {
            continue;
        }
        let s1_addr = head_block.succs[0];
        let s2_addr = head_block.succs[1];
        if has_addr(&handled, s1_addr) || has_addr(&handled, s2_addr) {
            continue;
        }
        let s1_block = match blocks.get(s1_addr) {
            Some(b) => b,
            None => {
                continue;
            },
        };
        let s2_block = match blocks.get(s2_addr) {
            Some(b) => b,
            None => {
                continue;
            },
        };
        if s1_block.succs.len() == 1 && s2_block.succs.len() == 1 && s1_block.succs[0] == s2_block.succs[0] {
            conditionals.push(
                Conditional {
                    kind: ConditionalType::IfElse,
                    condition_block: block_addr,
                    true_block: s1_addr,
                    false_block: Some(s2_addr),
                    join_block: s1_block.succs[0],
                },
            );
            handled.push(block_addr);
            handled.push(s1_addr);
            handled.push(s2_addr);
            continue;
        }
        if s1_block.succs.len() == 1 && s1_block.succs[0] == s2_addr {
            conditionals.push(
                Conditional {
                    kind: ConditionalType::If,
                    condition_block: block_addr,
                    true_block: s1_addr,
                    false_block: None,
                    join_block: s2_addr,
                },
            );
            handled.push(block_addr);
            handled.push(s1_addr);
            continue;
        }
        if s2_block.succs.len() == 1 && s2_block.succs[0] == s1_addr {
            conditionals.push(
                Conditional {
                    kind: ConditionalType::If,
                    condition_block: block_addr,
                    true_block: s2_addr,
                    false_block: None,
                    join_block: s1_addr,
                },
            );
            handled.push(block_addr);
            handled.push(s2_addr);
        }
    }
    proof {
        assert(block_addrs@.subrange(0, i as int) =~= block_addrs@);
        let ks = blocks.key_seq();
        assert forall|a: int, b: int| 0 <= a < b < ks.len() implies #[trigger] ks[a] < #[trigger] ks[b] by {
            assert(blocks.entries@[a].0 < blocks.entries@[b].0);
        }
        law_identify_conditionals(g, ks);
    }
    conditionals
}

/// Whether the natural loops `s` hold a loop with header `h` that contains
/// block `b`.
pub open spec fn natural_has(s: Seq<NaturalLoop>, h: u16, b: u16) -> bool {
    exists|k: int| 0 <= k < s.len() && s[k].header == h && #[trigger] s[k].blocks@.contains(b)
}

/// Whether some natural loop of `s` has header `h`.
pub open spec fn natural_header(s: Seq<NaturalLoop>, h: u16) -> bool {
    exists|k: int| 0 <= k < s.len() && #[trigger] s[k].header == h
}

/// Whether some loop of `m` has header `h`.
pub open spec fn merged_header(m: Seq<(u16, Seq<u16>)>, h: u16) -> bool {
    exists|i: int| 0 <= i < m.len() && #[trigger] m[i].0 == h
}

/// Whether no two loops of `m` share a header.
pub open spec fn distinct_headers(m: Seq<(u16, Seq<u16>)>) -> bool {
    forall|i: int, j: int| 0 <= i < j < m.len() ==> #[trigger] m[i].0 != #[trigger] m[j].0
}

proof fn lemma_append_new(a: Seq<u16>, b: Seq<u16>)
    ensures
        forall|x: u16| #[trigger] append_new(a, b).contains(x) <==> a.contains(x) || b.contains(x),
    decreases b.len(),
{
    if b.len() > 0 {
        lemma_append_new(a, b.drop_last());
        let r = append_new(a, b.drop_last());
        assert forall|x: u16| #[trigger] append_new(a, b).contains(x) <==> a.contains(x) || b.contains(x) by {
            if b.drop_last().contains(x) {
                let j = choose|j: int| 0 <= j < b.drop_last().len() && b.drop_last()[j] == x;
                assert(b[j] == x);
            }
            if b.contains(x) && !b.drop_last().contains(x) {
                let j = choose|j: int| 0 <= j < b.len() && b[j] == x;
                if j < b.len() - 1 {
                    assert(b.drop_last()[j] == x);
                }
                assert(x == b.last());
            }
            if !r.contains(b.last()) {
                assert(r.push(b.last()).last() == b.last());
                if r.push(b.last()).contains(x) && x != b.last() {
                    let j = choose|j: int| 0 <= j < r.push(b.last()).len() && r.push(b.last())[j] == x;
                    assert(r[j] == x);
                }
                if r.contains(x) {
                    let j = choose|j: int| 0 <= j < r.len() && r[j] == x;
                    assert(r.push(b.last())[j] == x);
                }
            }
            if b.contains(x) && x == b.last() {
                assert(b.drop_last().len() == b.len() - 1);
            }
        }
    }
}

proof fn lemma_find_header_none(m: Seq<(u16, Seq<u16>)>, h: u16, i: int)
    requires
        0 <= i,
        find_header(m, h, i) < 0,
    ensures
        forall|j: int| i <= j < m.len() ==> m[j].0 != h,
    decreases m.len() - i,
{
    if i < m.len() {
        lemma_find_header_none(m, h, i + 1);
    }
}

/// Merging the natural loops per header gives one loop for each header that
/// the natural loops have and no other, and the blocks of each are the blocks
/// of all the natural loops with its header.
pub proof fn law_merge_loops(s: Seq<NaturalLoop>)
    ensures
        distinct_headers(merge_loops(s)),
        forall|h: u16| #[trigger] merged_header(merge_loops(s), h) <==> natural_header(s, h),
        forall|i: int, b: u16|
            0 <= i < merge_loops(s).len() ==> (#[trigger] merge_loops(s)[i].1.contains(b) <==> natural_has(
                s,
                merge_loops(s)[i].0,
                b,
            )),
    decreases s.len(),
{
    if s.len() > 0 {
        let p = s.drop_last();
        law_merge_loops(p);
        let m0 = merge_loops(p);
        let l = s.last();
        let k = find_header(m0, l.header, 0);
        let m = merge_loops(s);
        lemma_find_header(m0, l.header, 0);
        assert forall|j: int| 0 <= j < p.len() implies s[j] == #[trigger] p[j] by {}
        assert(s[s.len() - 1] == l);
        if k >= 0 {
            let nb = append_new(m0[k].1, l.blocks@);
            lemma_append_new(m0[k].1, l.blocks@);
            assert(m == m0.update(k, (m0[k].0, nb)));
            assert forall|h: u16| #[trigger] merged_header(m, h) <==> natural_header(s, h) by {
                if merged_header(m, h) {
                    let i = choose|i: int| 0 <= i < m.len() && #[trigger] m[i].0 == h;
                    assert(m0[i].0 == h);
                    assert(merged_header(m0, h));
                    let q = choose|q: int| 0 <= q < p.len() && #[trigger] p[q].header == h;
                    assert(s[q].header == h);
                }
                if natural_header(s, h) {
                    let q = choose|q: int| 0 <= q < s.len() && #[trigger] s[q].header == h;
                    if q < p.len() {
                        assert(p[q].header == h);
                        assert(natural_header(p, h));
                        assert(merged_header(m0, h));
                        let i = choose|i: int| 0 <= i < m0.len() && #[trigger] m0[i].0 == h;
                        assert(m[i].0 == h);
                    } else {
                        assert(m[k].0 == h);
                    }
                }
            }
            assert forall|i: int, b: u16| 0 <= i < m.len() implies (#[trigger] m[i].1.contains(b) <==> natural_has(s, m[i].0, b)) by {
                let h = m[i].0;
                assert(m0[i].1.contains(b) <==> natural_has(p, h, b));
                if natural_has(p, h, b) {
                    let q = choose|q: int| 0 <= q < p.len() && p[q].header == h && #[trigger] p[q].blocks@.contains(b);
                    assert(s[q].blocks@.contains(b));
                }
                if natural_has(s, h, b) {
                    let q = choose|q: int| 0 <= q < s.len() && s[q].header == h && #[trigger] s[q].blocks@.contains(b);
                    if q < p.len() {
                        assert(p[q].blocks@.contains(b));
                        assert(natural_has(p, h, b));
                    } else {
                        assert(l.header == h);
                        if i != k {
                            assert(m0[i].0 != m0[k].0);
                        }
                    }
                }
                if i == k && l.blocks@.contains(b) {
                    assert(s[s.len() - 1].blocks@.contains(b));
                }
            }
        } else {
            lemma_find_header_none(m0, l.header, 0);
            let nb = append_new(Seq::empty(), l.blocks@);
            lemma_append_new(Seq::empty(), l.blocks@);
            assert(m == m0.push((l.header, nb)));
            assert forall|h: u16| #[trigger] merged_header(m, h) <==> natural_header(s, h) by {
                if merged_header(m, h) {
                    let i = choose|i: int| 0 <= i < m.len() && #[trigger] m[i].0 == h;
                    if i < m0.len() {
                        assert(m0[i].0 == h);
                        assert(merged_header(m0, h));
                        let q = choose|q: int| 0 <= q < p.len() && #[trigger] p[q].header == h;
                        assert(s[q].header == h);
                    } else {
                        assert(s[s.len() - 1].header == h);
                    }
                }
                if natural_header(s, h) {
                    let q = choose|q: int| 0 <= q < s.len() && #[trigger] s[q].header == h;
                    if q < p.len() {
                        assert(p[q].header == h);
                        assert(natural_header(p, h));
                        assert(merged_header(m0, h));
                        let i = choose|i: int| 0 <= i < m0.len() && #[trigger] m0[i].0 == h;
                        assert(m[i].0 == h);
                    } else {
                        assert(m[m0.len() as int].0 == h);
                    }
                }
            }
            assert forall|i: int, b: u16| 0 <= i < m.len() implies (#[trigger] m[i].1.contains(b) <==> natural_has(s, m[i].0, b)) by {
                let h = m[i].0;
                if i < m0.len() {
                    assert(m0[i].1.contains(b) <==> natural_has(p, h, b));
                    if natural_has(p, h, b) {
                        let q = choose|q: int| 0 <= q < p.len() && p[q].header == h && #[trigger] p[q].blocks@.contains(b);
                        assert(s[q].blocks@.contains(b));
                    }
                    if natural_has(s, h, b) {
                        let q = choose|q: int| 0 <= q < s.len() && s[q].header == h && #[trigger] s[q].blocks@.contains(b);
                        if q < p.len() {
                            assert(p[q].blocks@.contains(b));
                        } else {
                            assert(m0[i].0 == l.header);
                        }
                    }
                } else {
                    if natural_has(s, h, b) {
                        let q = choose|q: int| 0 <= q < s.len() && s[q].header == h && #[trigger] s[q].blocks@.contains(b);
                        if q < p.len() {
                            assert(p[q].header == h);
                            assert(natural_header(p, h));
                            assert(merged_header(m0, h));
                            let i2 = choose|i2: int| 0 <= i2 < m0.len() && #[trigger] m0[i2].0 == h;
                            assert(h == l.header);
                            assert(m0[i2].0 != l.header);
                        }
                    }
                    if l.blocks@.contains(b) {
                        assert(s[s.len() - 1].blocks@.contains(b));
                    }
                }
            }
        }
    }
}

/// Sorting keeps the loops, each once, and orders them by their number of
/// blocks, smallest first.
pub proof fn law_sort_by_size(s: Seq<(u16, Seq<u16>)>)
    requires
        distinct_headers(s),
    ensures
        sort_by_size(s).len() == s.len(),
        distinct_headers(sort_by_size(s)),
        forall|x: (u16, Seq<u16>)| #[trigger] sort_by_size(s).contains(x) <==> s.contains(x),
        forall|i: int, j: int|
            0 <= i <= j < s.len() ==> (#[trigger] sort_by_size(s)[i]).1.len() <= (#[trigger] sort_by_size(s)[j]).1.len(),
    decreases s.len(),
{
    lemma_sort_by_size_len(s);
    if s.len() > 0 {
        let p = s.drop_last();
        assert(distinct_headers(p)) by {
            assert forall|i: int, j: int| 0 <= i < j < p.len() implies #[trigger] p[i].0 != #[trigger] p[j].0 by {
                assert(s[i].0 != s[j].0);
            }
        }
        law_sort_by_size(p);
        let r = sort_by_size(p);
        let x = s.last();
        let n = x.1.len();
        let pos = len_pos(r, n, 0);
        lemma_len_pos(r, n, 0);
        lemma_len_pos_bounds(r, n, 0);
        r.insert_ensures(pos, x);
        let t = r.insert(pos, x);
        assert(sort_by_size(s) == t);
        assert forall|i: int| 0 <= i < r.len() implies (#[trigger] r[i]).0 != x.0 by {
            assert(r.contains(r[i]));
            let q = choose|q: int| 0 <= q < p.len() && p[q] == r[i];
            assert(s[q].0 != s[s.len() - 1].0);
        }
        lemma_insert_contains(r, pos, x);
        assert forall|y: (u16, Seq<u16>)| #[trigger] t.contains(y) <==> s.contains(y) by {
            assert(t.contains(y) <==> r.contains(y) || y == x);
            if s.contains(y) {
                let q = choose|q: int| 0 <= q < s.len() && s[q] == y;
                if q < p.len() {
                    assert(p[q] == y);
                    assert(p.contains(y));
                }
            }
            if r.contains(y) {
                assert(p.contains(y));
                let q = choose|q: int| 0 <= q < p.len() && p[q] == y;
                assert(s[q] == y);
            }
            if y == x {
                assert(s[s.len() - 1] == y);
            }
        }
        lemma_insert_distinct(r, pos, x);
        lemma_insert_sorted(r, pos, x);
    }
}

proof fn lemma_insert_contains(r: Seq<(u16, Seq<u16>)>, pos: int, x: (u16, Seq<u16>))
    requires
        0 <= pos <= r.len(),
    ensures
        forall|y: (u16, Seq<u16>)| #[trigger] r.insert(pos, x).contains(y) <==> r.contains(y) || y == x,
{
    r.insert_ensures(pos, x);
    let t = r.insert(pos, x);
    assert forall|y: (u16, Seq<u16>)| #[trigger] t.contains(y) <==> r.contains(y) || y == x by {
        if t.contains(y) {
            let i = choose|i: int| 0 <= i < t.len() && t[i] == y;
            if i < pos {
                assert(r[i] == y);
            } else if i > pos {
                assert(t[(i - 1) + 1] == r[i - 1]);
                assert(r[i - 1] == y);
            }
        }
        if r.contains(y) {
            let i = choose|i: int| 0 <= i < r.len() && r[i] == y;
            if i < pos {
                assert(t[i] == y);
            } else {
                assert(t[i + 1] == y);
            }
        }
        if y == x {
            assert(t[pos] == y);
        }
    }
}

proof fn lemma_insert_distinct(r: Seq<(u16, Seq<u16>)>, pos: int, x: (u16, Seq<u16>))
    requires
        0 <= pos <= r.len(),
        distinct_headers(r),
        forall|i: int| 0 <= i < r.len() ==> (#[trigger] r[i]).0 != x.0,
    ensures
        distinct_headers(r.insert(pos, x)),
{
    r.insert_ensures(pos, x);
    let t = r.insert(pos, x);
    assert forall|i: int, j: int| 0 <= i < j < t.len() implies #[trigger] t[i].0 != #[trigger] t[j].0 by {
        if j < pos {
        } else if i < pos && j == pos {
        } else if i < pos {
            assert(t[(j - 1) + 1] == r[j - 1]);
        } else if i == pos {
            assert(t[(j - 1) + 1] == r[j - 1]);
        } else {
            assert(t[(i - 1) + 1] == r[i - 1]);
            assert(t[(j - 1) + 1] == r[j - 1]);
        }
    }
}

proof fn lemma_insert_sorted(r: Seq<(u16, Seq<u16>)>, pos: int, x: (u16, Seq<u16>))
    requires
        0 <= pos <= r.len(),
        pos == len_pos(r, x.1.len(), 0),
        forall|i: int, j: int| 0 <= i <= j < r.len() ==> (#[trigger] r[i]).1.len() <= (#[trigger] r[j]).1.len(),
    ensures
        forall|i: int, j: int|
            0 <= i <= j < r.len() + 1 ==> (#[trigger] r.insert(pos, x)[i]).1.len() <= (#[trigger] r.insert(pos, x)[j]).1.len(),
{
    r.insert_ensures(pos, x);
    lemma_len_pos_bounds(r, x.1.len(), 0);
    let t = r.insert(pos, x);
    assert(t[pos] == x);
    assert forall|i: int, j: int| 0 <= i <= j < t.len() implies (#[trigger] t[i]).1.len() <= (#[trigger] t[j]).1.len() by {
        if j < pos {
        } else if i < pos && j == pos {
        } else if i < pos {
            assert(t[(j - 1) + 1] == r[j - 1]);
            assert(r[i].1.len() <= r[j - 1].1.len());
        } else if i == pos && j == pos {
        } else if i == pos {
            assert(t[(j - 1) + 1] == r[j - 1]);
            assert(r[pos].1.len() <= r[j - 1].1.len());
        } else {
            assert(t[(i - 1) + 1] == r[i - 1]);
            assert(t[(j - 1) + 1] == r[j - 1]);
        }
    }
}

proof fn lemma_len_pos_bounds(s: Seq<(u16, Seq<u16>)>, n: nat, i: int)
    requires
        0 <= i <= s.len(),
    ensures
        forall|j: int| i <= j < len_pos(s, n, i) ==> (#[trigger] s[j]).1.len() <= n,
        len_pos(s, n, i) < s.len() ==> s[len_pos(s, n, i)].1.len() > n,
    decreases s.len() - i,
{
    if i < s.len() && s[i].1.len() <= n {
        lemma_len_pos_bounds(s, n, i + 1);
    }
}

proof fn lemma_first_outside(succs: Seq<u16>, l: Seq<u16>, j: int)
    requires
        0 <= j,
    ensures
        first_outside(succs, l, j) matches Some(s) ==> succs.contains(s) && !l.contains(s),
        first_outside(succs, l, j) is None ==> forall|k: int| j <= k < succs.len() ==> l.contains(#[trigger] succs[k]),
    decreases succs.len() - j,
{
    if j < succs.len() {
        lemma_first_outside(succs, l, j + 1);
        if !l.contains(succs[j]) {
            assert(succs.contains(succs[j]));
        }
    }
}

/// Whether block `x` of the loop `l`, a block of the graph, has a successor
/// outside the loop.
pub open spec fn leaves_loop(g: Map<u16, BasicBlock>, l: Seq<u16>, x: u16) -> bool {
    l.contains(x) && g.dom().contains(x) && exists|k: int| 0 <= k < g[x].succs@.len() && !l.contains(#[trigger] g[x].succs@[k])
}

/// Whether block `x` of the loop `l`, a block of the graph, jumps back to
/// `header`.
pub open spec fn jumps_back(g: Map<u16, BasicBlock>, l: Seq<u16>, header: u16, x: u16) -> bool {
    l.contains(x) && g.dom().contains(x) && g[x].succs@.contains(header)
}

proof fn lemma_exit_from(g: Map<u16, BasicBlock>, l: Seq<u16>, i: int)
    requires
        0 <= i,
    ensures
        exit_from(g, l, i) matches Some(s) ==> !l.contains(s) && exists|x: u16| #[trigger] l.contains(x) && g.dom().contains(x) && g[x].succs@.contains(s),
        exit_from(g, l, i) is None ==> forall|k: int| i <= k < l.len() ==> !leaves_loop(g, l, #[trigger] l[k]),
    decreases l.len() - i,
{
    if i < l.len() {
        lemma_exit_from(g, l, i + 1);
        let x = l[i];
        assert(l.contains(x));
        if g.dom().contains(x) {
            lemma_first_outside(g[x].succs@, l, 0);
        }
        assert forall|k: int| i <= k < l.len() && exit_from(g, l, i) is None implies !leaves_loop(g, l, #[trigger] l[k]) by {
            if k == i && leaves_loop(g, l, x) {
                let q = choose|q: int| 0 <= q < g[x].succs@.len() && !l.contains(#[trigger] g[x].succs@[q]);
            }
        }
    }
}

proof fn lemma_latch_from(g: Map<u16, BasicBlock>, l: Seq<u16>, header: u16, i: int)
    requires
        0 <= i,
    ensures
        latch_from(g, l, header, i) matches Some(c) ==> jumps_back(g, l, header, c),
        latch_from(g, l, header, i) is None ==> forall|k: int| i <= k < l.len() ==> !jumps_back(g, l, header, #[trigger] l[k]),
    decreases l.len() - i,
{
    if i < l.len() {
        lemma_latch_from(g, l, header, i + 1);
        assert(l.contains(l[i]));
    }
}

/// The loops that `identify_loops` finds (see its contract): one per header
/// of the natural loops and no other, holding the blocks of all the natural
/// loops with that header, ordered by their number of blocks; each exits to a
/// block outside it that one of its blocks jumps to, and exits nowhere
/// exactly when none of its blocks has a successor outside it; its continue
/// block is one of its blocks that jumps to the header, and there is none
/// exactly when no block does.
pub proof fn law_identify_loops(s: Seq<NaturalLoop>, g: Map<u16, BasicBlock>)
    ensures
        ({
            let r = sort_by_size(merge_loops(s));
            &&& distinct_headers(r)
            &&& forall|h: u16| #[trigger] merged_header(r, h) <==> natural_header(s, h)
            &&& forall|i: int, b: u16| 0 <= i < r.len() ==> (#[trigger] r[i].1.contains(b) <==> natural_has(s, r[i].0, b))
            &&& forall|i: int, j: int| 0 <= i <= j < r.len() ==> (#[trigger] r[i]).1.len() <= (#[trigger] r[j]).1.len()
            &&& forall|i: int| 0 <= i < r.len() ==> {
                let (h, blocks, brk, cont) = #[trigger] loop_of(g, r[i]);
                &&& h == r[i].0 && blocks == r[i].1
                &&& brk matches Some(x) ==> !blocks.contains(x) && exists|y: u16| #[trigger] blocks.contains(y) && g.dom().contains(y) && g[y].succs@.contains(x)
                &&& brk is None <==> forall|y: u16| !(#[trigger] leaves_loop(g, blocks, y))
                &&& cont matches Some(c) ==> jumps_back(g, blocks, h, c)
                &&& cont is None <==> forall|y: u16| !(#[trigger] jumps_back(g, blocks, h, y))
            }
        }),
{
    let m = merge_loops(s);
    law_merge_loops(s);
    law_sort_by_size(m);
    let r = sort_by_size(m);
    assert forall|h: u16| #[trigger] merged_header(r, h) <==> natural_header(s, h) by {
        if merged_header(r, h) {
            let i = choose|i: int| 0 <= i < r.len() && #[trigger] r[i].0 == h;
            assert(r.contains(r[i]));
            let j = choose|j: int| 0 <= j < m.len() && m[j] == r[i];
            assert(m[j].0 == h);
            assert(merged_header(m, h));
        }
        if natural_header(s, h) {
            assert(merged_header(m, h));
            let j = choose|j: int| 0 <= j < m.len() && #[trigger] m[j].0 == h;
            assert(m.contains(m[j]));
            assert(r.contains(m[j]));
            let i = choose|i: int| 0 <= i < r.len() && r[i] == m[j];
            assert(r[i].0 == h);
        }
    }
    assert forall|i: int, b: u16| 0 <= i < r.len() implies (#[trigger] r[i].1.contains(b) <==> natural_has(s, r[i].0, b)) by {
        assert(r.contains(r[i]));
        let j = choose|j: int| 0 <= j < m.len() && m[j] == r[i];
        assert(m[j].1.contains(b) <==> natural_has(s, m[j].0, b));
    }
    assert forall|i: int| 0 <= i < r.len() implies {
        let (h, blocks, brk, cont) = #[trigger] loop_of(g, r[i]);
        &&& h == r[i].0 && blocks == r[i].1
        &&& brk matches Some(x) ==> !blocks.contains(x) && exists|y: u16| #[trigger] blocks.contains(y) && g.dom().contains(y) && g[y].succs@.contains(x)
        &&& brk is None <==> forall|y: u16| !(#[trigger] leaves_loop(g, blocks, y))
        &&& cont matches Some(c) ==> jumps_back(g, blocks, h, c)
        &&& cont is None <==> forall|y: u16| !(#[trigger] jumps_back(g, blocks, h, y))
    } by {
        let l = r[i].1;
        let h = r[i].0;
        lemma_exit_from(g, l, 0);
        lemma_latch_from(g, l, h, 0);
        if exit_from(g, l, 0) is None {
            assert forall|y: u16| !(#[trigger] leaves_loop(g, l, y)) by {
                if l.contains(y) {
                    let k = choose|k: int| 0 <= k < l.len() && l[k] == y;
                    assert(!leaves_loop(g, l, l[k]));
                }
            }
        } else {
            let x = exit_from(g, l, 0)->0;
            let y = choose|y: u16| #[trigger] l.contains(y) && g.dom().contains(y) && g[y].succs@.contains(x);
            let q = choose|q: int| 0 <= q < g[y].succs@.len() && g[y].succs@[q] == x;
            assert(leaves_loop(g, l, y));
        }
        if latch_from(g, l, h, 0) is None {
            assert forall|y: u16| !(#[trigger] jumps_back(g, l, h, y)) by {
                if l.contains(y) {
                    let k = choose|k: int| 0 <= k < l.len() && l[k] == y;
                    assert(!jumps_back(g, l, h, l[k]));
                }
            }
        }
    }
}

/// Whether a conditional branches at, runs or skips block `x`.
pub open spec fn cond_uses(c: Conditional, x: u16) -> bool {
    x == c.condition_block || x == c.true_block || c.false_block == Some(x)
}

/// Whether some conditional of `cs` uses block `x`.
pub open spec fn used_by(cs: Seq<Conditional>, x: u16) -> bool {
    exists|i: int| 0 <= i < cs.len() && #[trigger] cond_uses(cs[i], x)
}

/// Whether a conditional has its shape in the graph: an if-else branches
/// to its two branches, whose only successor is the join block; an if
/// branches to its branch and the join block, and its branch's only
/// successor is the join block.
pub open spec fn cond_shape(g: Map<u16, BasicBlock>, c: Conditional) -> bool {
    &&& g.dom().contains(c.condition_block) && g.dom().contains(c.true_block)
    &&& g[c.true_block].succs@ == seq![c.join_block]
    &&& match c.kind {
        ConditionalType::IfElse => c.false_block matches Some(f) && g[c.condition_block].succs@ == seq![c.true_block, f]
            && g.dom().contains(f) && g[f].succs@ == seq![c.join_block],
        ConditionalType::If => c.false_block is None && (g[c.condition_block].succs@ == seq![c.true_block, c.join_block]
            || g[c.condition_block].succs@ == seq![c.join_block, c.true_block]),
    }
}

proof fn lemma_push_contains(h: Seq<u16>, y: u16)
    ensures
        forall|x: u16| #[trigger] h.push(y).contains(x) <==> h.contains(x) || x == y,
{
    assert forall|x: u16| #[trigger] h.push(y).contains(x) <==> h.contains(x) || x == y by {
        if h.push(y).contains(x) {
            let i = choose|i: int| 0 <= i < h.push(y).len() && h.push(y)[i] == x;
            if i < h.len() {
                assert(h[i] == x);
            }
        }
        if h.contains(x) {
            let i = choose|i: int| 0 <= i < h.len() && h[i] == x;
            assert(h.push(y)[i] == x);
        }
        if x == y {
            assert(h.push(y)[h.len() as int] == x);
        }
    }
}

/// One step of the search either finds nothing or adds a conditional at the
/// block, of its shape in the graph, that uses no block used before, and
/// records the blocks it uses.
proof fn lemma_cond_step(g: Map<u16, BasicBlock>, a: u16, cs0: Seq<Conditional>, h0: Seq<u16>)
    ensures
        ({
            let (cs, h) = cond_step(g, a, (cs0, h0));
            ||| cs == cs0 && h == h0
            ||| {
                let c = cs.last();
                &&& cs == cs0.push(c)
                &&& c.condition_block == a
                &&& cond_shape(g, c)
                &&& !h0.contains(a) && !h0.contains(c.true_block)
                &&& (c.false_block matches Some(f) ==> !h0.contains(f))
                &&& forall|x: u16| #[trigger] h.contains(x) <==> h0.contains(x) || cond_uses(c, x)
            }
        }),
{
    let (cs, h) = cond_step(g, a, (cs0, h0));
    if !(h0.contains(a) || !g.dom().contains(a) || g[a].succs@.len() != 2) {
        let s1 = g[a].succs@[0];
        let s2 = g[a].succs@[1];
        if !(h0.contains(s1) || h0.contains(s2) || !g.dom().contains(s1) || !g.dom().contains(s2)) {
            let t1 = g[s1].succs@;
            let t2 = g[s2].succs@;
            assert(g[a].succs@.contains(s1));
            assert(g[a].succs@.contains(s2));
            if t1.len() == 1 && t2.len() == 1 && t1[0] == t2[0] {
                assert(g[a].succs@ =~= seq![s1, s2]);
                assert(t1 =~= seq![t1[0]]);
                assert(t2 =~= seq![t1[0]]);
                lemma_push_contains(h0, a);
                lemma_push_contains(h0.push(a), s1);
                lemma_push_contains(h0.push(a).push(s1), s2);
                assert(cs.last() == cs[cs0.len() as int]);
            } else if t1.len() == 1 && t1[0] == s2 {
                assert(t1 =~= seq![s2]);
                assert(g[a].succs@ =~= seq![s1, s2]);
                lemma_push_contains(h0, a);
                lemma_push_contains(h0.push(a), s1);
                assert(cs.last() == cs[cs0.len() as int]);
            } else if t2.len() == 1 && t2[0] == s1 {
                assert(t2 =~= seq![s1]);
                assert(g[a].succs@ =~= seq![s1, s2]);
                lemma_push_contains(h0, a);
                lemma_push_contains(h0.push(a), s2);
                assert(cs.last() == cs[cs0.len() as int]);
            }
        }
    }
}

/// The conditionals that `identify_conditionals` finds (see its contract),
/// over blocks walked in increasing address order: each has its shape in
/// the graph, they come in increasing order of their branching blocks, which
/// are blocks of the walk, no block is used by two of them, and the blocks
/// recorded as used are exactly those that they use.
pub proof fn law_identify_conditionals(g: Map<u16, BasicBlock>, keys: Seq<u16>)
    requires
        forall|i: int, j: int| 0 <= i < j < keys.len() ==> #[trigger] keys[i] < #[trigger] keys[j],
    ensures
        ({
            let (cs, h) = cond_scan(g, keys);
            &&& forall|i: int| 0 <= i < cs.len() ==> cond_shape(g, #[trigger] cs[i])
            &&& forall|i: int| 0 <= i < cs.len() ==> keys.contains(#[trigger] cs[i].condition_block)
            &&& forall|i: int, j: int| 0 <= i < j < cs.len() ==> (#[trigger] cs[i]).condition_block < (#[trigger] cs[j]).condition_block
            &&& forall|i: int, j: int, x: u16| 0 <= i < j < cs.len() ==> !(#[trigger] cond_uses(cs[i], x) && #[trigger] cond_uses(cs[j], x))
            &&& forall|x: u16| #[trigger] h.contains(x) <==> used_by(cs, x)
        }),
    decreases keys.len(),
{
    if keys.len() > 0 {
        let p = keys.drop_last();
        assert forall|i: int, j: int| 0 <= i < j < p.len() implies #[trigger] p[i] < #[trigger] p[j] by {
            assert(keys[i] < keys[j]);
        }
        law_identify_conditionals(g, p);
        let (cs0, h0) = cond_scan(g, p);
        let a = keys.last();
        let (cs, h) = cond_scan(g, keys);
        assert((cs, h) == cond_step(g, a, (cs0, h0)));
        assert forall|i: int| 0 <= i < cs0.len() implies keys.contains(#[trigger] cs0[i].condition_block) && cs0[i].condition_block < a by {
            assert(p.contains(cs0[i].condition_block));
            let q = choose|q: int| 0 <= q < p.len() && p[q] == cs0[i].condition_block;
            assert(keys[q] == p[q]);
            assert(keys[q] < keys[keys.len() - 1]);
        }
        lemma_cond_step(g, a, cs0, h0);
        if !(cs == cs0 && h == h0) {
            let c = cs.last();
            assert(cs[cs.len() - 1] == c);
            assert(c.condition_block == a);
            assert(keys[keys.len() - 1] == a);
            assert forall|i: int| 0 <= i < cs.len() implies cond_shape(g, #[trigger] cs[i]) by {
                if i < cs0.len() {
                    assert(cs[i] == cs0[i]);
                }
            }
            assert forall|i: int| 0 <= i < cs.len() implies keys.contains(#[trigger] cs[i].condition_block) by {
                if i < cs0.len() {
                    assert(cs[i] == cs0[i]);
                }
            }
            assert forall|i: int, j: int| 0 <= i < j < cs.len() implies (#[trigger] cs[i]).condition_block < (#[trigger] cs[j]).condition_block by {
                assert(cs[i] == cs0[i]);
                if j < cs0.len() {
                    assert(cs[j] == cs0[j]);
                }
            }
            assert forall|i: int, j: int, x: u16| 0 <= i < j < cs.len() implies !(#[trigger] cond_uses(cs[i], x) && #[trigger] cond_uses(cs[j], x)) by {
                assert(cs[i] == cs0[i]);
                if j < cs0.len() {
                    assert(cs[j] == cs0[j]);
                } else if cond_uses(cs[i], x) {
                    assert(used_by(cs0, x));
                    assert(h0.contains(x));
                }
            }
            assert forall|x: u16| #[trigger] h.contains(x) <==> used_by(cs, x) by {
                if h.contains(x) {
                    if h0.contains(x) {
                        let i = choose|i: int| 0 <= i < cs0.len() && #[trigger] cond_uses(cs0[i], x);
                        assert(cs[i] == cs0[i]);
                    } else {
                        assert(cond_uses(cs[cs.len() - 1], x));
                    }
                }
                if used_by(cs, x) {
                    let i = choose|i: int| 0 <= i < cs.len() && #[trigger] cond_uses(cs[i], x);
                    if i < cs0.len() {
                        assert(cs[i] == cs0[i]);
                        assert(used_by(cs0, x));
                    } else {
                        assert(cs[i] == c);
                    }
                }
            }
        } else {
            assert(cs == cs0 && h == h0);
            assert forall|i: int| 0 <= i < cs.len() implies keys.contains(#[trigger] cs[i].condition_block) by {}
        }
    }
}

/// Whether some loop of `loops` has header `h`.
pub open spec fn has_loop_header(loops: Seq<Loop>, h: u16) -> bool {
    exists|i: int| 0 <= i < loops.len() && #[trigger] loops[i].header == h
}

/// The loops hold one loop for each header of the natural loops `nl` and no
/// other, each with the blocks of all the natural loops with its header, in
/// order of their number of blocks, smallest first.
pub open spec fn loops_merged(nl: Seq<NaturalLoop>, loops: Seq<Loop>) -> bool {
    &&& forall|i: int, j: int| 0 <= i < j < loops.len() ==> #[trigger] loops[i].header != #[trigger] loops[j].header
    &&& forall|h: u16| #[trigger] has_loop_header(loops, h) <==> natural_header(nl, h)
    &&& forall|i: int, b: u16| 0 <= i < loops.len() ==> (#[trigger] loops[i].blocks@.contains(b) <==> natural_has(nl, loops[i].header, b))
    &&& forall|i: int, j: int| 0 <= i <= j < loops.len() ==> (#[trigger] loops[i]).blocks@.len() <= (#[trigger] loops[j]).blocks@.len()
}

/// The exits of a loop in the graph `g`: its break block lies outside it
/// and one of its blocks jumps there, and there is none exactly when no
/// block of the loop has a successor outside it; its continue block is one
/// of its blocks that jumps to the header, and there is none exactly when no
/// block does.
pub open spec fn loop_exits_ok(g: Map<u16, BasicBlock>, l: Loop) -> bool {
    let blocks = l.blocks@;
    &&& l.break_block matches Some(x) ==> !blocks.contains(x) && exists|y: u16| #[trigger] blocks.contains(y) && g.dom().contains(y) && g[y].succs@.contains(x)
    &&& l.break_block is None <==> forall|y: u16| !(#[trigger] leaves_loop(g, blocks, y))
    &&& l.continue_block matches Some(c) ==> jumps_back(g, blocks, l.header, c)
    &&& l.continue_block is None <==> forall|y: u16| !(#[trigger] jumps_back(g, blocks, l.header, y))
}

proof fn lemma_loops_from_model(nl: Seq<NaturalLoop>, g: Map<u16, BasicBlock>, loops: Seq<Loop>)
    requires
        loops.len() == sort_by_size(merge_loops(nl)).len(),
        forall|i: int| 0 <= i < loops.len() ==> loop_fields(#[trigger] loops[i]) == loop_of(g, sort_by_size(merge_loops(nl))[i]),
    ensures
        loops_merged(nl, loops),
        forall|i: int| 0 <= i < loops.len() ==> loop_exits_ok(g, #[trigger] loops[i]),
{
    law_identify_loops(nl, g);
    let r = sort_by_size(merge_loops(nl));
    assert forall|i: int| 0 <= i < loops.len() implies (#[trigger] loops[i]).header == r[i].0 && loops[i].blocks@ == r[i].1 by {
        assert(loop_fields(loops[i]) == loop_of(g, r[i]));
    }
    assert forall|i: int, j: int| 0 <= i < j < loops.len() implies #[trigger] loops[i].header != #[trigger] loops[j].header by {
        assert(loops[i].header == r[i].0 && loops[j].header == r[j].0);
    }
    assert forall|h: u16| #[trigger] has_loop_header(loops, h) <==> natural_header(nl, h) by {
        if has_loop_header(loops, h) {
            let i = choose|i: int| 0 <= i < loops.len() && #[trigger] loops[i].header == h;
            assert(r[i].0 == h);
            assert(merged_header(r, h));
        }
        if natural_header(nl, h) {
            assert(merged_header(r, h));
            let i = choose|i: int| 0 <= i < r.len() && #[trigger] r[i].0 == h;
            assert(loops[i].header == h);
        }
    }
    assert forall|i: int, b: u16| 0 <= i < loops.len() implies (#[trigger] loops[i].blocks@.contains(b) <==> natural_has(nl, loops[i].header, b)) by {
        assert(loops[i].header == r[i].0 && loops[i].blocks@ == r[i].1);
        assert(r[i].1.contains(b) <==> natural_has(nl, r[i].0, b));
    }
    assert forall|i: int, j: int| 0 <= i <= j < loops.len() implies (#[trigger] loops[i]).blocks@.len() <= (#[trigger] loops[j]).blocks@.len() by {
        assert(loops[i].blocks@ == r[i].1 && loops[j].blocks@ == r[j].1);
    }
    assert forall|i: int| 0 <= i < loops.len() implies loop_exits_ok(g, #[trigger] loops[i]) by {
        assert(loop_fields(loops[i]) == loop_of(g, r[i]));
        let (h, blocks, brk, cont) = loop_of(g, r[i]);
        assert(h == r[i].0 && blocks == r[i].1);
    }
}

} // verus!
