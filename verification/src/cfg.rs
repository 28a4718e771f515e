use vstd::prelude::*;
use crate::addr_map::AddrMap;
use crate::addr_set::AddrSet;
use crate::disasm::{
    branch_destination, branch_from, ends_block, find_next_branch, find_next_label, find_run_last,
    get_branch_destination, is_br, is_cond_br, label_from, next_addr, run_last,
};
use crate::lc3::Line;

verus! {

/// A basic block of the control-flow graph, keyed elsewhere by its start
/// address: how many words it spans, its predecessor and successor blocks,
/// and the blocks that dominate it.
#[derive(Debug, Clone)]
pub struct BasicBlock {
    pub length: u16,
    pub preds: Vec<u16>,
    pub succs: Vec<u16>,
    pub dominators: Vec<u16>,
}

/// A copy of a vector of addresses.
pub fn copy_addrs(v: &Vec<u16>) -> (r: Vec<u16>)
    ensures
        r@ == v@,
{
    let mut r: Vec<u16> = Vec::new();
    let mut i: usize = 0;
    while i < v.len()
        invariant
            i <= v@.len(),
            r@ == v@.subrange(0, i as int),
        decreases v@.len() - i,
    {
        r.push(v[i]);
        i = i + 1;
        assert(r@ =~= v@.subrange(0, i as int));
    }
    assert(v@.subrange(0, i as int) =~= v@);
    r
}

/// Whether a vector of addresses holds `a`.
pub fn has_addr(v: &Vec<u16>, a: u16) -> (b: bool)
    ensures
        b == v@.contains(a),
{
    let mut i: usize = 0;
    while i < v.len()
        invariant
            i <= v@.len(),
            forall|j: int| 0 <= j < i ==> v@[j] != a,
        decreases v@.len() - i,
    {
        if v[i] == a {
            return true;
        }
        i = i + 1;
    }
    false
}

impl BasicBlock {
    /// An empty block: no length, no edges, no dominators.
    pub fn new() -> (b: Self)
        ensures
            b.length == 0,
            b.preds@ == Seq::<u16>::empty(),
            b.succs@ == Seq::<u16>::empty(),
            b.dominators@ == Seq::<u16>::empty(),
    {
        BasicBlock { length: 0, preds: Vec::new(), succs: Vec::new(), dominators: Vec::new() }
    }

    /// A copy of the block.
    pub fn duplicate(&self) -> (b: Self)
        ensures
            b.length == self.length,
            b.preds@ == self.preds@,
            b.succs@ == self.succs@,
            b.dominators@ == self.dominators@,
    {
        BasicBlock {
            length: self.length,
            preds: copy_addrs(&self.preds),
            succs: copy_addrs(&self.succs),
            dominators: copy_addrs(&self.dominators),
        }
    }
}

/// A natural loop: its header and the blocks it spans.
#[derive(Debug, Clone)]
pub struct NaturalLoop {
    pub header: u16,
    pub blocks: Vec<u16>,
}

impl NaturalLoop {
    /// A loop made of its header alone.
    pub fn new(header: u16) -> (l: Self)
        ensures
            l.header == header,
            l.blocks@ == seq![header],
    {
        let mut blocks: Vec<u16> = Vec::new();
        blocks.push(header);
        NaturalLoop { header, blocks }
    }
}

/// Makes sure the graph has a block at `start_address`, adding an empty one
/// where it has none.
pub fn get_block_at(start_address: u16, block_list: &mut AddrMap<BasicBlock>)
    requires
        old(block_list).wf(),
    ensures
        final(block_list).wf(),
        old(block_list).map().dom().contains(start_address) ==> final(block_list).map() == old(
            block_list,
        ).map(),
        !old(block_list).map().dom().contains(start_address) ==> final(block_list).map() == old(
            block_list,
        ).map().insert(start_address, final(block_list).map()[start_address]),
        final(block_list).map().dom().contains(start_address),
        !old(block_list).map().dom().contains(start_address) ==> {
            let b = final(block_list).map()[start_address];
            &&& b.length == 0
            &&& b.preds@.len() == 0
            &&& b.succs@.len() == 0
            &&& b.dominators@.len() == 0
        },
{
    if !block_list.contains_key(start_address) {
        block_list.insert(start_address, BasicBlock::new());
    }
}

/// `a - b` on 16-bit addresses, wrapping around.
pub open spec fn addr_diff(a: u16, b: u16) -> u16 {
    ((a as int - b as int) % 0x10000) as u16
}

/// The length and successors of a block that ends at the branch `b`: the
/// branch's destination where it is a `BR`, then the address after it where
/// the branch is conditional.
pub open spec fn branch_exit(m: Map<u16, Line>, start: u16, b: u16) -> (u16, Seq<u16>) {
    let dest = if is_br(m[b]) {
        match branch_destination(m, b) {
            Some(d) => seq![d],
            None => Seq::empty(),
        }
    } else {
        Seq::empty()
    };
    let fall = if is_cond_br(m[b]) {
        seq![next_addr(b)]
    } else {
        Seq::empty()
    };
    (addr_diff(next_addr(b), start), dest + fall)
}

/// The length and successors of the block that starts at `start`: it ends
/// before the next label or after the next block-ending instruction,
/// whichever comes first, or at the end of the run of disassembled words.
pub open spec fn block_shape(m: Map<u16, Line>, start: u16) -> (u16, Seq<u16>) {
    match (label_from(m, start + 1), branch_from(m, start as int)) {
        (Some(l), Some(b)) => if l < next_addr(b) {
            (addr_diff(l, start), seq![l])
        } else {
            branch_exit(m, start, b)
        },
        (None, Some(b)) => branch_exit(m, start, b),
        (Some(l), None) => (addr_diff(l, start), seq![l]),
        (None, None) => (addr_diff(next_addr(run_last(m, start as int) as u16), start), Seq::empty()),
    }
}

/// The addresses of `s` without repetitions, in order of first occurrence.
pub open spec fn unique_addrs(s: Seq<u16>) -> Seq<u16>
    decreases s.len(),
{
    if s.len() == 0 {
        Seq::empty()
    } else {
        let u = unique_addrs(s.drop_last());
        if u.contains(s.last()) {
            u
        } else {
            u.push(s.last())
        }
    }
}

/// No address occurs twice.
pub open spec fn no_dups(s: Seq<u16>) -> bool {
    forall|i: int, j: int| 0 <= i < j < s.len() ==> s[i] != s[j]
}

pub proof fn lemma_unique_addrs(s: Seq<u16>)
    ensures
        no_dups(unique_addrs(s)),
        forall|x: u16| #[trigger] unique_addrs(s).contains(x) <==> s.contains(x),
    decreases s.len(),
{
    if s.len() > 0 {
        let d = s.drop_last();
        let l = s.last();
        let u = unique_addrs(d);
        lemma_unique_addrs(d);
        assert forall|x: u16| s.contains(x) <==> (d.contains(x) || x == l) by {
            if s.contains(x) && x != l {
                let i = choose|i: int| 0 <= i < s.len() && s[i] == x;
                assert(d[i] == x);
            }
            if d.contains(x) {
                let i = choose|i: int| 0 <= i < d.len() && d[i] == x;
                assert(s[i] == x);
            }
            if x == l {
                assert(s[s.len() - 1] == x);
            }
        }
        if !u.contains(l) {
            let v = u.push(l);
            assert forall|x: u16| v.contains(x) <==> (u.contains(x) || x == l) by {
                if v.contains(x) && x != l {
                    let i = choose|i: int| 0 <= i < v.len() && v[i] == x;
                    assert(u[i] == x);
                }
                if u.contains(x) {
                    let i = choose|i: int| 0 <= i < u.len() && u[i] == x;
                    assert(v[i] == x);
                }
                if x == l {
                    assert(v[v.len() - 1] == x);
                }
            }
            assert(no_dups(v)) by {
                assert forall|i: int, j: int| 0 <= i < j < v.len() implies v[i] != v[j] by {
                    if j == v.len() - 1 {
                        assert(u.contains(v[i]));
                    }
                }
            }
        }
    }
}

/// A block-ending address that `branch_from` finds is disassembled.
pub proof fn lemma_branch_from_in(m: Map<u16, Line>, a: int)
    ensures
        branch_from(m, a) matches Some(b) ==> m.dom().contains(b) && a <= b,
    decreases 0x10000 - a,
{
    if 0 <= a <= 0xFFFF && m.dom().contains(a as u16) && !crate::disasm::ends_block(m[a as u16]) {
        lemma_branch_from_in(m, a + 1);
    }
}

/// The unique successors of a sequence of at most two addresses.
proof fn lemma_unique_small(raw: Seq<u16>)
    requires
        raw.len() <= 2,
    ensures
        raw.len() == 0 ==> unique_addrs(raw) == raw,
        raw.len() == 1 ==> unique_addrs(raw) == raw,
        raw.len() == 2 && raw[0] != raw[1] ==> unique_addrs(raw) == raw,
        raw.len() == 2 && raw[0] == raw[1] ==> unique_addrs(raw) == seq![raw[0]],
{
    assert(unique_addrs(Seq::<u16>::empty()) =~= Seq::<u16>::empty());
    if raw.len() == 1 {
        assert(raw.drop_last() =~= Seq::<u16>::empty());
        assert(unique_addrs(raw) =~= raw);
    } else if raw.len() == 2 {
        let one = raw.drop_last();
        assert(one.drop_last() =~= Seq::<u16>::empty());
        assert(unique_addrs(one) =~= one);
        if raw[0] != raw[1] {
            assert(unique_addrs(raw) =~= raw);
        } else {
            assert(unique_addrs(raw) =~= seq![raw[0]]);
        }
    }
}

/// The length and successors of a block that ends at the branch
/// `branch_addr`, as `find_next_branch` describes it.
fn exit_successors(
    start: u16,
    branch_addr: u16,
    branch_after: u16,
    dest_known: bool,
    is_cond: bool,
    disassembly: &AddrMap<Line>,
) -> (r: (u16, Vec<u16>))
    requires
        disassembly.wf(),
        disassembly.map().dom().contains(branch_addr),
        (branch_addr, branch_after, dest_known, is_cond) == crate::disasm::branch_info(
            disassembly.map(),
            branch_addr,
        ),
    ensures
        r.0 == branch_exit(disassembly.map(), start, branch_addr).0,
        r.1@ == unique_addrs(branch_exit(disassembly.map(), start, branch_addr).1),
{
    let length = branch_after.wrapping_sub(start);
    let mut successors: Vec<u16> = Vec::new();
    if dest_known {
        if let Some(dest_addr) = get_branch_destination(branch_addr, disassembly) {
            successors.push(dest_addr);
        }
    }
    if is_cond {
        successors.push(branch_after);
    }
    let ghost raw = successors@;
    proof {
        assert(raw =~= branch_exit(disassembly.map(), start, branch_addr).1);
        lemma_unique_small(raw);
    }
    if successors.len() == 2 && successors[0] == successors[1] {
        successors.pop();
        assert(successors@ =~= seq![raw[0]]);
    }
    (length, successors)
}

/// Computes the length and the successors (without repetitions) of the block
/// that starts at `start`.
pub fn compute_block_shape(start: u16, disassembly: &AddrMap<Line>) -> (r: (u16, Vec<u16>))
    requires
        disassembly.wf(),
    ensures
        r.0 == block_shape(disassembly.map(), start).0,
        r.1@ == unique_addrs(block_shape(disassembly.map(), start).1),
{
    let ghost m = disassembly.map();
    let next_label = find_next_label(start, disassembly);
    let next_branch = find_next_branch(start, disassembly);
    proof {
        lemma_branch_from_in(m, start as int);
        lemma_unique_small(Seq::<u16>::empty());
    }
    match (next_label, next_branch) {
        (Some(label_addr), Some((branch_addr, branch_after, dest_known, is_cond))) => {
            if label_addr < branch_after {
                let mut successors: Vec<u16> = Vec::new();
                successors.push(label_addr);
                proof {
                    lemma_unique_small(successors@);
                }
                (label_addr.wrapping_sub(start), successors)
            } else {
                exit_successors(start, branch_addr, branch_after, dest_known, is_cond, disassembly)
            }
        },
        (None, Some((branch_addr, branch_after, dest_known, is_cond))) => {
            exit_successors(start, branch_addr, branch_after, dest_known, is_cond, disassembly)
        },
        (Some(label_addr), None) => {
            let mut successors: Vec<u16> = Vec::new();
            successors.push(label_addr);
            proof {
                lemma_unique_small(successors@);
            }
            (label_addr.wrapping_sub(start), successors)
        },
        (None, None) => {
            let last_addr = find_run_last(start, disassembly);
            (last_addr.wrapping_add(1).wrapping_sub(start), Vec::new())
        },
    }
}

/// The invariant of the block discovery: every discovered block that has
/// been processed has its final shape, every other one is still to be
/// processed, and the predecessor lists mirror the successor lists, except for
/// the edges from `from` to the addresses in `pending`, not yet recorded.
pub open spec fn discovery_inv(
    dis: Map<u16, Line>,
    entry: u16,
    g: Map<u16, BasicBlock>,
    done: Set<u16>,
    work: Seq<u16>,
    from: u16,
    pending: Seq<u16>,
) -> bool {
    &&& g.dom().contains(entry)
    &&& forall|k: u16| #[trigger] done.contains(k) ==> g.dom().contains(k)
    &&& forall|k: u16|
        #[trigger] g.dom().contains(k) && done.contains(k) ==> g[k].length == block_shape(dis, k).0
            && g[k].succs@ == unique_addrs(block_shape(dis, k).1)
    &&& forall|k: u16|
        #[trigger] g.dom().contains(k) && !done.contains(k) ==> g[k].length == 0
            && g[k].succs@.len() == 0 && work.contains(k)
    &&& forall|k: u16|
        #[trigger] g.dom().contains(k) ==> g[k].dominators@.len() == 0 && no_dups(g[k].preds@)
    &&& forall|k: u16, s: u16|
        g.dom().contains(k) && #[trigger] g[k].succs@.contains(s) && !(k == from && pending.contains(
            s,
        )) ==> g.dom().contains(s)
    &&& forall|k: u16, p: u16|
        g.dom().contains(k) && #[trigger] g[k].preds@.contains(p) ==> g.dom().contains(p)
            && g[p].succs@.contains(k)
    &&& forall|k: u16, p: u16|
        g.dom().contains(k) && g.dom().contains(p) && #[trigger] g[p].succs@.contains(k) && !(p
            == from && pending.contains(k)) ==> g[k].preds@.contains(p)
    &&& forall|k: u16| #[trigger] g.dom().contains(k) && k != entry ==> g[k].preds@.len() > 0
    &&& forall|i: int| 0 <= i < work.len() ==> g.dom().contains(#[trigger] work[i])
}

/// The control-flow graph of the code reachable from `entry`: it has a block
/// at `entry`; each block has the shape that `block_shape` gives it; successors
/// are blocks; predecessor lists have no repetitions and hold exactly the
/// blocks that have the block as a successor; every block but the entry has a
/// predecessor; no dominators are computed yet.
pub open spec fn is_block_graph(dis: Map<u16, Line>, entry: u16, g: Map<u16, BasicBlock>) -> bool {
    &&& g.dom().contains(entry)
    &&& forall|k: u16|
        #[trigger] g.dom().contains(k) ==> g[k].length == block_shape(dis, k).0 && g[k].succs@
            == unique_addrs(block_shape(dis, k).1) && g[k].dominators@.len() == 0 && no_dups(
            g[k].preds@,
        ) && (k != entry ==> g[k].preds@.len() > 0)
    &&& forall|k: u16, s: u16|
        g.dom().contains(k) && #[trigger] g[k].succs@.contains(s) ==> g.dom().contains(s)
    &&& forall|k: u16, p: u16|
        g.dom().contains(k) && #[trigger] g[k].preds@.contains(p) ==> g.dom().contains(p)
            && g[p].succs@.contains(k)
    &&& forall|k: u16, p: u16|
        g.dom().contains(k) && g.dom().contains(p) && #[trigger] g[p].succs@.contains(k)
            ==> g[k].preds@.contains(p)
}

/// A block as the graph scan builds it: its length, predecessors and
/// successors.
pub type BlockRec = (u16, Seq<u16>, Seq<u16>);

/// The blocks of a graph as records.
pub open spec fn block_rec(g: Map<u16, BasicBlock>) -> Map<u16, BlockRec> {
    Map::new(|k: u16| g.dom().contains(k), |k: u16| (g[k].length, g[k].preds@, g[k].succs@))
}

/// The block at `t` after recording the edge `from -> t`: a new empty block
/// where there was none, with `from` appended to its predecessors unless it
/// is there already.
pub open spec fn edge_rec(g: Map<u16, BlockRec>, t: u16, from: u16) -> BlockRec {
    let b = if g.dom().contains(t) {
        g[t]
    } else {
        (0u16, Seq::<u16>::empty(), Seq::<u16>::empty())
    };
    (b.0, if b.1.contains(from) {
        b.1
    } else {
        b.1.push(from)
    }, b.2)
}

/// Records the edge `from -> s`: adds a block at `s` if there is none, adds
/// `from` to its predecessors and schedules `s`.
fn add_edge(
    Ghost(dis): Ghost<Map<u16, Line>>,
    entry: u16,
    blocks: &mut AddrMap<BasicBlock>,
    Ghost(done): Ghost<Set<u16>>,
    work: &mut Vec<u16>,
    from: u16,
    s: u16,
    Ghost(pending): Ghost<Seq<u16>>,
)
    requires
        old(blocks).wf(),
        pending.len() > 0,
        s == pending[0],
        no_dups(pending),
        done.contains(from),
        old(blocks).map()[from].succs@.contains(pending[0]),
        discovery_inv(dis, entry, old(blocks).map(), done, old(work)@, from, pending),
    ensures
        final(blocks).wf(),
        discovery_inv(dis, entry, final(blocks).map(), done, final(work)@, from, pending.drop_first()),
        final(work)@ == old(work)@.push(pending[0]),
        forall|k: u16| #[trigger] old(blocks).map().dom().contains(k) ==> final(blocks).map().dom().contains(k)
            && final(blocks).map()[k].succs@ == old(blocks).map()[k].succs@,
        final(blocks).map().dom() == old(blocks).map().dom().insert(s),
        block_rec(final(blocks).map()) == block_rec(old(blocks).map()).insert(s, edge_rec(block_rec(old(blocks).map()), s, from)),
{
    let ghost g0 = blocks.map();
    proof {
        assert(g0.dom().contains(from));
    }
    get_block_at(s, blocks);
    let ghost g1 = blocks.map();
    let mut sb = match blocks.get(s) {
        Some(b) => b.duplicate(),
        None => BasicBlock::new(),
    };
    let ghost was_pred = sb.preds@.contains(from);
    if !has_addr(&sb.preds, from) {
        sb.preds.push(from);
    }
    let ghost new_preds = sb.preds@;
    blocks.insert(s, sb);
    work.push(s);
    proof {
        let g2 = blocks.map();
        let r0 = block_rec(g0);
        let rn = r0.insert(s, edge_rec(r0, s, from));
        assert(g1[s].preds@ == (if g0.dom().contains(s) { g0[s].preds@ } else { Seq::<u16>::empty() }));
        assert(g1[s].length == (if g0.dom().contains(s) { g0[s].length } else { 0u16 }));
        assert(g1[s].succs@ == (if g0.dom().contains(s) { g0[s].succs@ } else { Seq::<u16>::empty() }));
        assert forall|k: u16| #[trigger] block_rec(g2).dom().contains(k) <==> rn.dom().contains(k) by {}
        assert forall|k: u16| #[trigger] block_rec(g2).dom().contains(k) implies block_rec(g2)[k] == rn[k] by {
            if k != s {
                assert(g2[k] == g1[k]);
                assert(g1[k] == g0[k]);
            }
        }
        assert(block_rec(g2) =~= rn);
        let rest = pending.drop_first();
        assert forall|x: u16| #[trigger] pending.contains(x) && x != s implies rest.contains(x) by {
            let i = choose|i: int| 0 <= i < pending.len() && pending[i] == x;
            assert(rest[i - 1] == x);
        }
        assert forall|x: u16| #[trigger] rest.contains(x) implies pending.contains(x) && x != s by {
            let i = choose|i: int| 0 <= i < rest.len() && rest[i] == x;
            assert(pending[i + 1] == x);
        }
        assert(new_preds.contains(from)) by {
            if !was_pred {
                assert(new_preds[new_preds.len() - 1] == from);
            }
        }
        assert(no_dups(new_preds)) by {
            assert forall|i: int, j: int| 0 <= i < j < new_preds.len() implies new_preds[i]
                != new_preds[j] by {
                if !was_pred && j == new_preds.len() - 1 {
                    assert(g1[s].preds@.contains(new_preds[i]));
                }
            }
        }
        assert forall|x: u16| #[trigger] new_preds.contains(x) implies x == from || g1[s].preds@.contains(x) by {
            let i = choose|i: int| 0 <= i < new_preds.len() && new_preds[i] == x;
            if i < g1[s].preds@.len() {
                assert(g1[s].preds@[i] == x);
            }
        }
        assert forall|x: u16| #[trigger] g1[s].preds@.contains(x) implies new_preds.contains(x) by {
            let i = choose|i: int| 0 <= i < g1[s].preds@.len() && g1[s].preds@[i] == x;
            assert(new_preds[i] == x);
        }
        let w = work@;
        assert(g2.dom() =~= g1.dom());
        assert(forall|k: u16| g2.dom().contains(k) && k != s ==> g2[k] == g1[k]);
        assert(g2[s].succs@ == g1[s].succs@ && g2[s].length == g1[s].length
            && g2[s].dominators@ == g1[s].dominators@);
        assert(forall|k: u16| g1.dom().contains(k) && k != s ==> g0.dom().contains(k) && g1[k] == g0[k]);
        assert(!g0.dom().contains(s) ==> g1[s].succs@.len() == 0 && g1[s].preds@.len() == 0
            && g1[s].length == 0 && g1[s].dominators@.len() == 0);
        assert forall|i: int| 0 <= i < old(work)@.len() implies w[i] == old(work)@[i] by {}
        assert(w[w.len() - 1] == s);
        assert forall|k: u16| old(work)@.contains(k) implies #[trigger] w.contains(k) by {
            let i = choose|i: int| 0 <= i < old(work)@.len() && old(work)@[i] == k;
            assert(w[i] == k);
        }
        assert(w.contains(s));
        assert forall|k: u16| #[trigger] g2.dom().contains(k) && !done.contains(k)
            implies g2[k].length == 0 && g2[k].succs@.len() == 0 && w.contains(k) by {
            if k != s {
                assert(g0.dom().contains(k));
            }
        }
        assert forall|k: u16| #[trigger] g2.dom().contains(k) implies g2[k].dominators@.len() == 0
            && no_dups(g2[k].preds@) by {
            if k != s {
                assert(g0.dom().contains(k));
            }
        }
        assert forall|k: u16, x: u16| g2.dom().contains(k) && #[trigger] g2[k].succs@.contains(x)
            && !(k == from && rest.contains(x)) implies g2.dom().contains(x) by {
            if k == s {
                if g0.dom().contains(s) {
                    assert(g0[s].succs@.contains(x));
                }
            } else {
                assert(g0[k].succs@.contains(x));
            }
        }
        assert forall|k: u16, p: u16| g2.dom().contains(k) && #[trigger] g2[k].preds@.contains(p)
            implies g2.dom().contains(p) && g2[p].succs@.contains(k) by {
            if k == s {
                if p != from {
                    assert(g1[s].preds@.contains(p));
                    assert(g0.dom().contains(s));
                    assert(g0[s].preds@.contains(p));
                }
            } else {
                assert(g0[k].preds@.contains(p));
            }
            if p == s {
                assert(g0.dom().contains(s) || g1[s].succs@.len() == 0);
            }
        }
        assert forall|k: u16, p: u16| g2.dom().contains(k) && g2.dom().contains(p)
            && #[trigger] g2[p].succs@.contains(k) && !(p == from && rest.contains(k))
            implies g2[k].preds@.contains(p) by {
            if p == s && !g0.dom().contains(s) {
                assert(g1[s].succs@.len() == 0);
            }
            assert(g0.dom().contains(p));
            assert(g0[p].succs@.contains(k));
            if k == s {
                if p != from {
                    assert(g0.dom().contains(s));
                    assert(g0[s].preds@.contains(p));
                }
            } else {
                assert(g0.dom().contains(k));
                assert(g0[k].preds@.contains(p));
            }
        }
        assert forall|k: u16| #[trigger] g2.dom().contains(k) && k != entry implies g2[k].preds@.len() > 0 by {
            if k != s {
                assert(g0.dom().contains(k));
            } else {
                assert(new_preds.contains(from));
            }
        }
        assert forall|i: int| 0 <= i < w.len() implies g2.dom().contains(#[trigger] w[i]) by {
            if i < old(work)@.len() {
                assert(g0.dom().contains(old(work)@[i]));
            }
        }
        assert forall|k: u16| #[trigger] g2.dom().contains(k) && done.contains(k) implies g2[k].length
            == block_shape(dis, k).0 && g2[k].succs@ == unique_addrs(block_shape(dis, k).1) by {
            assert(g0.dom().contains(k));
        }
        assert(discovery_inv(dis, entry, g2, done, w, from, rest));
        assert(g2.dom() =~= g0.dom().insert(s));
    }
}

/// A set of addresses that holds the entry and, with each address, the
/// successors of the block that starts there.
pub open spec fn block_closed(dis: Map<u16, Line>, entry: u16, w: Set<u16>) -> bool {
    &&& w.contains(entry)
    &&& forall|k: u16, s: u16| #[trigger] w.contains(k) && #[trigger] block_shape(dis, k).1.contains(s) ==> w.contains(s)
}

/// Every set closed as `block_closed` asks holds every address of `d`: no
/// block lies outside what the entry reaches.
pub open spec fn within_closed(dis: Map<u16, Line>, entry: u16, d: Set<u16>) -> bool {
    forall|w: Set<u16>| #[trigger] block_closed(dis, entry, w) ==> d.subset_of(w)
}

/// Removing the last element keeps every other element that occurred.
proof fn lemma_drop_last_contains(w: Seq<u16>, k: u16)
    requires
        w.len() > 0,
        w.contains(k),
        k != w.last(),
    ensures
        w.drop_last().contains(k),
{
    let i = choose|i: int| 0 <= i < w.len() && w[i] == k;
    assert(w.drop_last()[i] == k);
}

proof fn lemma_label_from_range(m: Map<u16, Line>, a: int)
    ensures
        label_from(m, a) matches Some(l) ==> a <= l <= 0xFFFF,
    decreases 0x10000 - a,
{
    if 0 <= a <= 0xFFFF && m.dom().contains(a as u16) && !m[a as u16].labeled {
        lemma_label_from_range(m, a + 1);
    }
}

proof fn lemma_branch_from_range(m: Map<u16, Line>, a: int)
    ensures
        branch_from(m, a) matches Some(b) ==> a <= b <= 0xFFFF && m.dom().contains(b),
    decreases 0x10000 - a,
{
    if 0 <= a <= 0xFFFF && m.dom().contains(a as u16) && !ends_block(m[a as u16]) {
        lemma_branch_from_range(m, a + 1);
    }
}

proof fn lemma_run_last_range(m: Map<u16, Line>, a: int)
    requires
        0 <= a <= 0xFFFF,
    ensures
        a <= run_last(m, a) <= 0xFFFF,
        run_last(m, a) > a ==> m.dom().contains(run_last(m, a) as u16),
    decreases 0x10000 - a,
{
    if 0 <= a < 0xFFFF && m.dom().contains((a + 1) as u16) {
        lemma_run_last_range(m, a + 1);
    }
}

/// Every block is at least one word long, but for a block at address 0
/// that runs to the end of memory (its length, 0x10000, wraps to 0).
pub proof fn law_block_length(m: Map<u16, Line>, start: u16)
    ensures
        block_shape(m, start).0 >= 1 || (start == 0 && m.dom().contains(0xFFFF)),
{
    lemma_label_from_range(m, start + 1);
    lemma_branch_from_range(m, start as int);
    lemma_run_last_range(m, start as int);
}

/// The state of the scan that builds the graph: the blocks so far, the
/// blocks whose shape is known, the blocks still to visit (the last first),
/// the block whose outgoing edges are being recorded, and its successors
/// whose edges are still to record.
pub type GraphScan = (Map<u16, BlockRec>, Set<u16>, Seq<u16>, u16, Seq<u16>);

/// One step of the graph scan: record the next pending edge (scheduling its
/// target), or take the last block still to visit and, unless its shape is
/// known, give it its length and successors and make its edges pending.
pub open spec fn graph_step(dis: Map<u16, Line>, s: GraphScan) -> GraphScan {
    let (g, done, work, from, pending) = s;
    if pending.len() > 0 {
        let t = pending[0];
        (g.insert(t, edge_rec(g, t, from)), done, work.push(t), from, pending.drop_first())
    } else if work.len() == 0 {
        s
    } else {
        let k = work.last();
        if done.contains(k) {
            (g, done, work.drop_last(), from, pending)
        } else {
            let su = unique_addrs(block_shape(dis, k).1);
            (g.insert(k, (block_shape(dis, k).0, g[k].1, su)), done.insert(k), work.drop_last(), k, su)
        }
    }
}

/// The graph scan run for at most `fuel` steps, or until nothing is left
/// to do.
pub open spec fn graph_run(dis: Map<u16, Line>, s: GraphScan, fuel: nat) -> GraphScan
    decreases fuel,
{
    if fuel == 0 || (s.4.len() == 0 && s.2.len() == 0) {
        s
    } else {
        graph_run(dis, graph_step(dis, s), (fuel - 1) as nat)
    }
}

/// The blocks that the graph scan from `entry` builds, with their lengths,
/// predecessors in the order their edges are found, and successors (the
/// scan ends within this many steps).
pub open spec fn graph_scan(dis: Map<u16, Line>, entry: u16) -> Map<u16, BlockRec> {
    graph_run(
        dis,
        (Map::<u16, BlockRec>::empty().insert(entry, (0u16, Seq::empty(), Seq::empty())), Set::empty(), seq![entry], entry, Seq::empty()),
        0x60010,
    ).0
}

/// A block has at most two successors.
proof fn lemma_shape_succs_len(dis: Map<u16, Line>, k: u16)
    ensures
        unique_addrs(block_shape(dis, k).1).len() <= 2,
{
    lemma_unique_len(block_shape(dis, k).1);
}

proof fn lemma_unique_len(s: Seq<u16>)
    ensures
        unique_addrs(s).len() <= s.len(),
    decreases s.len(),
{
    if s.len() > 0 {
        lemma_unique_len(s.drop_last());
    }
}

/// Builds the control-flow graph of the code reachable from `entry_address`:
/// starting from the entry, each block runs to the next label or block-ending
/// instruction, and its successors are discovered in turn. The blocks, their
/// lengths, successors and predecessors (in the order in which their edges
/// are found) are exactly those of `graph_scan`.
pub fn create_basic_blocks(entry_address: u16, disassembly: &AddrMap<Line>) -> (blocks: AddrMap<
    BasicBlock,
>)
    requires
        disassembly.wf(),
    ensures
        blocks.wf(),
        is_block_graph(disassembly.map(), entry_address, blocks.map()),
        within_closed(disassembly.map(), entry_address, blocks.map().dom()),
        block_rec(blocks.map()) == graph_scan(disassembly.map(), entry_address),
        forall|k: u16|
            #[trigger] blocks.map().dom().contains(k) ==> blocks.map()[k].length >= 1 || (k == 0
                && disassembly.map().dom().contains(0xFFFF)),
{
    let ghost dis = disassembly.map();
    let mut block_list: AddrMap<BasicBlock> = AddrMap::new();
    let mut work_list: Vec<u16> = Vec::new();
    let mut processed = AddrSet::new();
    get_block_at(entry_address, &mut block_list);
    work_list.push(entry_address);
    proof {
        let g = block_list.map();
        assert(g.dom() =~= Set::<u16>::empty().insert(entry_address));
        assert(work_list@[0] == entry_address);
        assert(discovery_inv(dis, entry_address, g, processed.set(), work_list@, entry_address, Seq::empty()));
        assert forall|w: Set<u16>| #[trigger] block_closed(dis, entry_address, w) implies g.dom().subset_of(w) by {}
    }
    let ghost init: GraphScan = (
        Map::<u16, BlockRec>::empty().insert(entry_address, (0u16, Seq::empty(), Seq::empty())),
        Set::empty(),
        seq![entry_address],
        entry_address,
        Seq::empty(),
    );
    let ghost target = graph_run(dis, init, 0x60010);
    let ghost mut st: GraphScan = init;
    let ghost mut fuel: nat = 0x60010;
    proof {
        let g = block_list.map();
        assert(g[entry_address].preds@ =~= Seq::<u16>::empty());
        assert(g[entry_address].succs@ =~= Seq::<u16>::empty());
        assert(block_rec(g).dom() =~= init.0.dom());
        assert(block_rec(g)[entry_address] == init.0[entry_address]);
        assert(block_rec(g) =~= init.0);
        assert(work_list@ =~= seq![entry_address]);
    }
    while work_list.len() > 0
        invariant
            block_list.wf(),
            processed.wf(),
            disassembly.wf(),
            dis == disassembly.map(),
            discovery_inv(dis, entry_address, block_list.map(), processed.set(), work_list@, entry_address, Seq::empty()),
            within_closed(dis, entry_address, block_list.map().dom()),
            block_rec(block_list.map()) == st.0 && processed.set() == st.1 && work_list@ == st.2 && st.4.len() == 0,
            5 * (0x10000 - processed.count) + work_list@.len() < fuel,
            graph_run(dis, st, fuel) == target,
        decreases 0x10000 - processed.count, work_list@.len(),
    {
        let ghost w0 = work_list@;
        let block_start = match work_list.pop() {
            Some(a) => a,
            None => entry_address,
        };
        let ghost g0 = block_list.map();
        proof {
            assert(w0.last() == block_start);
            assert(work_list@ == w0.drop_last());
            assert(g0.dom().contains(block_start)) by {
                assert(g0.dom().contains(w0[w0.len() - 1]));
            }
            assert forall|k: u16| #[trigger] g0.dom().contains(k) && !processed.set().contains(k)
                && k != block_start implies work_list@.contains(k) by {
                lemma_drop_last_contains(w0, k);
            }
            assert forall|i: int| 0 <= i < work_list@.len() implies g0.dom().contains(#[trigger] work_list@[i]) by {
                assert(work_list@[i] == w0[i]);
            }
        }
        let ghost st1 = graph_step(dis, st);
        proof {
            processed.lemma_count_bound();
            assert(graph_run(dis, st, fuel) == graph_run(dis, st1, (fuel - 1) as nat));
            st = st1;
            fuel = (fuel - 1) as nat;
        }
        if processed.contains(block_start) {
            proof {
                processed.lemma_count_bound();
                assert(discovery_inv(dis, entry_address, g0, processed.set(), work_list@, entry_address, Seq::empty()));
            }
            continue;
        }
        let ghost done0 = processed.set();
        processed.insert(block_start);
        proof {
            processed.lemma_count_bound();
        }
        let (length, succs) = compute_block_shape(block_start, disassembly);
        let mut b = match block_list.get(block_start) {
            Some(b) => b.duplicate(),
            None => BasicBlock::new(),
        };
        b.length = length;
        b.succs = copy_addrs(&succs);
        let ghost nb = b;
        block_list.insert(block_start, b);
        proof {
            let g1 = block_list.map();
            let r0 = block_rec(g0);
            let rn = r0.insert(block_start, (block_shape(dis, block_start).0, r0[block_start].1, succs@));
            assert forall|k: u16| #[trigger] block_rec(g1).dom().contains(k) <==> rn.dom().contains(k) by {}
            assert forall|k: u16| #[trigger] block_rec(g1).dom().contains(k) implies block_rec(g1)[k] == rn[k] by {
                if k != block_start {
                    assert(g1[k] == g0[k]);
                }
            }
            assert(block_rec(g1) =~= rn);
            lemma_shape_succs_len(dis, block_start);
            assert(succs@.subrange(0, succs@.len() as int) =~= succs@);
        }
        proof {
            lemma_unique_addrs(block_shape(dis, block_start).1);
            let g1 = block_list.map();
            let done1 = processed.set();
            let w = work_list@;
            assert(g1.dom() =~= g0.dom());
            assert(done1 =~= done0.insert(block_start));
            assert(g0[block_start].succs@.len() == 0);
            assert forall|k: u16| #[trigger] done1.contains(k) implies g1.dom().contains(k) by {}
            assert forall|k: u16| #[trigger] g1.dom().contains(k) && !done1.contains(k)
                implies g1[k].length == 0 && g1[k].succs@.len() == 0 && w.contains(k) by {}
            assert forall|k: u16, x: u16| g1.dom().contains(k) && #[trigger] g1[k].succs@.contains(x)
                && !(k == block_start && succs@.contains(x)) implies g1.dom().contains(x) by {}
            assert forall|k: u16, p: u16| g1.dom().contains(k) && #[trigger] g1[k].preds@.contains(p)
                implies g1.dom().contains(p) && g1[p].succs@.contains(k) by {
                assert(g0[k].preds@.contains(p));
                assert(g0[p].succs@.contains(k));
            }
            assert forall|k: u16, p: u16| g1.dom().contains(k) && g1.dom().contains(p)
                && #[trigger] g1[p].succs@.contains(k) && !(p == block_start && succs@.contains(k))
                implies g1[k].preds@.contains(p) by {
                assert(g0[p].succs@.contains(k));
            }
            assert(discovery_inv(dis, entry_address, g1, done1, w, block_start, succs@));
            assert(succs@.subrange(0, succs@.len() as int) =~= succs@);
        }
        let mut j: usize = 0;
        while j < succs.len()
            invariant
                block_list.wf(),
                processed.wf(),
                disassembly.wf(),
                dis == disassembly.map(),
                j <= succs@.len(),
                no_dups(succs@),
                processed.set().contains(block_start),
                block_list.map().dom().contains(block_start),
                block_list.map()[block_start].succs@ == succs@,
                succs@ == unique_addrs(block_shape(dis, block_start).1),
                within_closed(dis, entry_address, block_list.map().dom()),
                discovery_inv(
                    dis,
                    entry_address,
                    block_list.map(),
                    processed.set(),
                    work_list@,
                    block_start,
                    succs@.subrange(j as int, succs@.len() as int),
                ),
                block_rec(block_list.map()) == st.0 && processed.set() == st.1 && work_list@ == st.2 && st.3 == block_start
                    && st.4 == succs@.subrange(j as int, succs@.len() as int),
                5 * (0x10000 - processed.count) + work_list@.len() + 2 * (succs@.len() - j) < fuel,
                graph_run(dis, st, fuel) == target,
            decreases succs@.len() - j,
        {
            let ghost st1 = graph_step(dis, st);
            proof {
                processed.lemma_count_bound();
                assert(st.4.len() > 0);
                assert(graph_run(dis, st, fuel) == graph_run(dis, st1, (fuel - 1) as nat));
            }
            let ghost pend = succs@.subrange(j as int, succs@.len() as int);
            proof {
                assert(no_dups(pend)) by {
                    assert forall|a: int, c: int| 0 <= a < c < pend.len() implies pend[a] != pend[c] by {
                        assert(pend[a] == succs@[j + a]);
                        assert(pend[c] == succs@[j + c]);
                    }
                }
                assert(pend[0] == succs@[j as int]);
                assert(succs@.contains(succs@[j as int]));
            }
            let ghost gb = block_list.map();
            add_edge(
                Ghost(dis),
                entry_address,
                &mut block_list,
                Ghost(processed.set()),
                &mut work_list,
                block_start,
                succs[j],
                Ghost(pend),
            );
            proof {
                assert(pend.drop_first() =~= succs@.subrange(j + 1, succs@.len() as int));
                lemma_unique_addrs(block_shape(dis, block_start).1);
                assert(succs@.contains(succs@[j as int]));
                assert(block_shape(dis, block_start).1.contains(succs@[j as int]));
                assert forall|w: Set<u16>| #[trigger] block_closed(dis, entry_address, w) implies block_list.map().dom().subset_of(w) by {
                    assert(gb.dom().subset_of(w));
                    assert(w.contains(block_start));
                    assert(w.contains(succs@[j as int]));
                }
                assert(st.4[0] == succs@[j as int]);
                st = st1;
                fuel = (fuel - 1) as nat;
            }
            j = j + 1;
        }
        proof {
            assert(succs@.subrange(j as int, succs@.len() as int) =~= Seq::<u16>::empty());
            let g2 = block_list.map();
            assert(discovery_inv(dis, entry_address, g2, processed.set(), work_list@, entry_address, Seq::empty()));
        }
    }
    proof {
        let g = block_list.map();
        let done = processed.set();
        assert forall|k: u16| g.dom().contains(k) implies done.contains(k) by {
            if !done.contains(k) {
                assert(work_list@.contains(k));
            }
        }
        assert forall|k: u16| #[trigger] g.dom().contains(k) implies g[k].length == block_shape(dis, k).0
            && g[k].succs@ == unique_addrs(block_shape(dis, k).1) && g[k].dominators@.len() == 0
            && no_dups(g[k].preds@) && (k != entry_address ==> g[k].preds@.len() > 0) by {
            assert(done.contains(k));
        }
        assert forall|k: u16| #[trigger] g.dom().contains(k) implies g[k].length >= 1 || (k == 0 && dis.dom().contains(0xFFFF)) by {
            assert(done.contains(k));
            law_block_length(dis, k);
        }
    }
    block_list
}

/// The dominators of block `k` as a set.
pub open spec fn dom_set(g: Map<u16, BasicBlock>, k: u16) -> Set<u16> {
    g[k].dominators@.to_set()
}

/// What the dominator equation asks of block `k`: `k` itself together with
/// the blocks that dominate every predecessor of `k` (just `k` where it has no
/// predecessor).
pub open spec fn meet(g: Map<u16, BasicBlock>, k: u16) -> Set<u16> {
    let ps = g[k].preds@;
    if ps.len() == 0 {
        set![k]
    } else {
        Set::new(
            |x: u16| x == k || forall|i: int| 0 <= i < ps.len() ==> #[trigger] g[ps[i]].dominators@.contains(x),
        )
    }
}

/// Addresses strictly increase.
pub open spec fn strictly_sorted(s: Seq<u16>) -> bool {
    forall|i: int, j: int| 0 <= i < j < s.len() ==> #[trigger] s[i] < #[trigger] s[j]
}

/// Every block's dominator list is sorted and solves the dominator equations:
/// the entry is dominated by itself alone, every other block by `meet`.
pub open spec fn dominators_solved(g: Map<u16, BasicBlock>, entry: u16) -> bool {
    forall|k: u16|
        #[trigger] g.dom().contains(k) ==> strictly_sorted(g[k].dominators@) && (k == entry
            ==> g[k].dominators@ == seq![entry]) && (k != entry ==> dom_set(g, k) == meet(g, k))
}

/// `meet` over an assignment `s` of dominator sets to blocks.
pub open spec fn meet_with(g: Map<u16, BasicBlock>, s: Map<u16, Set<u16>>, k: u16) -> Set<u16> {
    let ps = g[k].preds@;
    if ps.len() == 0 {
        set![k]
    } else {
        Set::new(|x: u16| x == k || forall|i: int| 0 <= i < ps.len() ==> #[trigger] s[ps[i]].contains(x))
    }
}

/// An assignment of sets of blocks to the blocks of `g` that solves the
/// dominator equations.
pub open spec fn dom_fixpoint(g: Map<u16, BasicBlock>, entry: u16, s: Map<u16, Set<u16>>) -> bool {
    forall|k: u16|
        #[trigger] g.dom().contains(k) ==> s.dom().contains(k) && s[k].subset_of(g.dom()) && (k == entry ==> s[k]
            == set![entry]) && (k != entry ==> s[k] == meet_with(g, s, k))
}

/// Every solution of the dominator equations of `h` assigns each block a
/// subset of its dominator list in `g`.
pub open spec fn above_solutions(g: Map<u16, BasicBlock>, h: Map<u16, BasicBlock>, entry: u16) -> bool {
    forall|s: Map<u16, Set<u16>>|
        #[trigger] dom_fixpoint(h, entry, s) ==> forall|k: u16| #[trigger] g.dom().contains(k) ==> s[k].subset_of(dom_set(g, k))
}

/// The dominator lists of `g` are the greatest solution of the dominator
/// equations: every solution assigns each block a subset of its list.
pub open spec fn dominators_greatest(g: Map<u16, BasicBlock>, entry: u16) -> bool {
    above_solutions(g, g, entry)
}

/// The dominator equations depend on the blocks and their predecessors only.
proof fn lemma_dom_fixpoint_same_edges(g: Map<u16, BasicBlock>, h: Map<u16, BasicBlock>, entry: u16, s: Map<u16, Set<u16>>)
    requires
        same_edges(g, h),
    ensures
        dom_fixpoint(g, entry, s) == dom_fixpoint(h, entry, s),
{
    assert forall|k: u16| g.dom().contains(k) implies meet_with(g, s, k) == meet_with(h, s, k) by {
        assert(g[k].preds@ == h[k].preds@);
    }
}

/// A solution below the current lists stays below the `meet` of a block.
proof fn lemma_meet_above(g0: Map<u16, BasicBlock>, g_in: Map<u16, BasicBlock>, entry: u16, s: Map<u16, Set<u16>>, key: u16)
    requires
        same_edges(g0, g_in),
        preds_closed(g0),
        g0.dom().contains(key),
        key != entry,
        dom_fixpoint(g_in, entry, s),
        forall|k: u16| #[trigger] g0.dom().contains(k) ==> s[k].subset_of(dom_set(g0, k)),
    ensures
        s[key].subset_of(meet(g0, key)),
{
    assert(g_in.dom().contains(key));
    assert(s[key] == meet_with(g_in, s, key));
    let ps = g0[key].preds@;
    assert(g_in[key].preds@ == ps);
    if ps.len() > 0 {
        assert forall|x: u16| s[key].contains(x) implies meet(g0, key).contains(x) by {
            if x != key {
                assert forall|i: int| 0 <= i < ps.len() implies #[trigger] g0[ps[i]].dominators@.contains(x) by {
                    assert(s[ps[i]].contains(x));
                    assert(g0[key].preds@.contains(ps[i]));
                    assert(g0.dom().contains(ps[i]));
                    assert(dom_set(g0, ps[i]).contains(x));
                }
            }
        }
    }
}

/// Every predecessor of a block is a block.
pub open spec fn preds_closed(g: Map<u16, BasicBlock>) -> bool {
    forall|k: u16, p: u16| g.dom().contains(k) && #[trigger] g[k].preds@.contains(p) ==> g.dom().contains(p)
}

/// The blocks of `g` keep the lengths and edges of the blocks of `h`.
pub open spec fn same_edges(g: Map<u16, BasicBlock>, h: Map<u16, BasicBlock>) -> bool {
    &&& g.dom() == h.dom()
    &&& forall|k: u16|
        #[trigger] g.dom().contains(k) ==> g[k].length == h[k].length && g[k].preds@ == h[k].preds@
            && g[k].succs@ == h[k].succs@
}

/// The sum of the lengths of the dominator lists.
pub open spec fn total_doms(s: Seq<(u16, BasicBlock)>) -> nat
    decreases s.len(),
{
    if s.len() == 0 {
        0
    } else {
        total_doms(s.drop_last()) + s.last().1.dominators@.len()
    }
}

proof fn lemma_total_doms_update(s: Seq<(u16, BasicBlock)>, i: int, e: (u16, BasicBlock))
    requires
        0 <= i < s.len(),
    ensures
        total_doms(s.update(i, e)) + s[i].1.dominators@.len() == total_doms(s) + e.1.dominators@.len(),
    decreases s.len(),
{
    let t = s.update(i, e);
    if i == s.len() - 1 {
        assert(t.drop_last() =~= s.drop_last());
    } else {
        assert(t.drop_last() =~= s.drop_last().update(i, e));
        lemma_total_doms_update(s.drop_last(), i, e);
    }
}

/// Dominator lists hold blocks only, without repetitions and in order.
pub open spec fn doms_ok(g: Map<u16, BasicBlock>) -> bool {
    forall|k: u16|
        #[trigger] g.dom().contains(k) ==> strictly_sorted(g[k].dominators@) && (forall|x: u16|
            #[trigger] g[k].dominators@.contains(x) ==> g.dom().contains(x))
}

proof fn lemma_sorted_no_dups(s: Seq<u16>)
    requires
        strictly_sorted(s),
    ensures
        s.no_duplicates(),
        s.to_set().len() == s.len(),
{
    assert forall|i: int, j: int| 0 <= i < s.len() && 0 <= j < s.len() && i != j implies s[i] != s[j] by {
        if i < j {
            assert(s[i] < s[j]);
        } else {
            assert(s[j] < s[i]);
        }
    }
    s.unique_seq_to_set();
}

/// Computes the list for `meet(g, k)`: the blocks, in ascending order, that
/// are `k` or dominate every predecessor of `k`.
fn meet_of(blocks: &AddrMap<BasicBlock>, k: u16, keys: &Vec<u16>) -> (r: Vec<u16>)
    requires
        blocks.wf(),
        keys@ == blocks.key_seq(),
        blocks.map().dom().contains(k),
        preds_closed(blocks.map()),
        doms_ok(blocks.map()),
    ensures
        r@.to_set() == meet(blocks.map(), k),
        strictly_sorted(r@),
        forall|x: u16| #[trigger] r@.contains(x) ==> blocks.map().dom().contains(x),
{
    let ghost g = blocks.map();
    let preds = match blocks.get(k) {
        Some(b) => copy_addrs(&b.preds),
        None => Vec::new(),
    };
    let mut r: Vec<u16> = Vec::new();
    let mut i: usize = 0;
    while i < keys.len()
        invariant
            blocks.wf(),
            g == blocks.map(),
            keys@ == blocks.key_seq(),
            preds@ == g[k].preds@,
            preds_closed(g),
            doms_ok(g),
            g.dom().contains(k),
            i <= keys@.len(),
            forall|a: int, b: int| 0 <= a < b < r@.len() ==> #[trigger] r@[a] < #[trigger] r@[b],
            forall|a: int| 0 <= a < r@.len() ==> exists|b: int| 0 <= b < i && #[trigger] keys@[b] == #[trigger] r@[a],
            forall|x: u16| #[trigger] r@.contains(x) <==> (exists|b: int| 0 <= b < i && keys@[b] == x) && meet(g, k).contains(x),
        decreases keys@.len() - i,
    {
        let x = keys[i];
        let mut keep = x == k;
        if !keep && preds.len() > 0 {
            let mut all = true;
            let mut j: usize = 0;
            while j < preds.len()
                invariant
                    blocks.wf(),
                    g == blocks.map(),
                    preds@ == g[k].preds@,
                    preds_closed(g),
                    g.dom().contains(k),
                    j <= preds@.len(),
                    all == forall|q: int| 0 <= q < j ==> #[trigger] g[preds@[q]].dominators@.contains(x),
                decreases preds@.len() - j,
            {
                let p = preds[j];
                assert(g[k].preds@.contains(p)) by { assert(g[k].preds@[j as int] == p); }
                let has = match blocks.get(p) {
                    Some(pb) => has_addr(&pb.dominators, x),
                    None => false,
                };
                all = all && has;
                j = j + 1;
            }
            keep = all;
        }
        proof {
            assert(keep == meet(g, k).contains(x));
        }
        if keep {
            let ghost r0 = r@;
            r.push(x);
            proof {
                assert(sorted_keys_ordered(keys@, blocks.entries@));
                assert forall|a: int| 0 <= a < r0.len() implies r0[a] < x by {
                    let b = choose|b: int| 0 <= b < i && #[trigger] keys@[b] == r0[a];
                    assert(keys@[b] < keys@[i as int]);
                }
                assert forall|y: u16| #[trigger] r@.contains(y) <==> r0.contains(y) || y == x by {
                    if r@.contains(y) && y != x {
                        let a = choose|a: int| 0 <= a < r@.len() && r@[a] == y;
                        assert(r0[a] == y);
                    }
                    if r0.contains(y) {
                        let a = choose|a: int| 0 <= a < r0.len() && r0[a] == y;
                        assert(r@[a] == y);
                    }
                    if y == x {
                        assert(r@[r@.len() - 1] == y);
                    }
                }
                assert forall|a: int| 0 <= a < r@.len() implies exists|b: int| 0 <= b < i + 1 && #[trigger] keys@[b] == #[trigger] r@[a] by {
                    if a < r0.len() {
                        let b = choose|b: int| 0 <= b < i && #[trigger] keys@[b] == r0[a];
                        assert(keys@[b] == r@[a]);
                    } else {
                        assert(keys@[i as int] == r@[a]);
                    }
                }
            }
        } else {
            proof {
                assert forall|y: u16| #[trigger] r@.contains(y) implies exists|b: int| 0 <= b < i + 1 && keys@[b] == y by {
                    let b = choose|b: int| 0 <= b < i && keys@[b] == y;
                    assert(0 <= b < i + 1 && keys@[b] == y);
                }
            }
        }
        proof {
            assert forall|y: u16| #[trigger] r@.contains(y) <==> (exists|b: int| 0 <= b < i + 1 && keys@[b] == y) && meet(g, k).contains(y) by {
                if (exists|b: int| 0 <= b < i + 1 && keys@[b] == y) && meet(g, k).contains(y) {
                    let b = choose|b: int| 0 <= b < i + 1 && keys@[b] == y;
                    if b < i {
                        assert(exists|b: int| 0 <= b < i && keys@[b] == y);
                    } else {
                        assert(y == x);
                    }
                }
            }
        }
        i = i + 1;
    }
    proof {
        assert forall|x: u16| meet(g, k).contains(x) implies r@.contains(x) by {
            assert(g.dom().contains(x)) by {
                if x != k {
                    let ps = g[k].preds@;
                    assert(ps.len() > 0);
                    assert(g[ps[0]].dominators@.contains(x));
                    assert(g[k].preds@.contains(ps[0]));
                }
            }
            let e = blocks.lemma_key(x);
            assert(keys@[e] == x);
        }
        assert(r@.to_set() =~= meet(g, k));
        assert forall|x: u16| #[trigger] r@.contains(x) implies g.dom().contains(x) by {
            let b = choose|b: int| 0 <= b < keys@.len() && keys@[b] == x;
            blocks.lemma_entry(b);
        }
    }
    r
}

/// The keys of a sorted entry sequence strictly increase.
pub open spec fn sorted_keys_ordered(keys: Seq<u16>, entries: Seq<(u16, BasicBlock)>) -> bool {
    forall|a: int, b: int| 0 <= a < b < keys.len() ==> #[trigger] keys[a] < #[trigger] keys[b]
}

/// Shrinking the dominators of one block shrinks every block's `meet`.
proof fn lemma_meet_monotone(g: Map<u16, BasicBlock>, h: Map<u16, BasicBlock>, c: u16)
    requires
        same_edges(h, g),
        g.dom().contains(c),
        forall|k: u16| #[trigger] g.dom().contains(k) ==> dom_set(h, k).subset_of(dom_set(g, k)),
        preds_closed(g),
    ensures
        meet(h, c).subset_of(meet(g, c)),
{
    assert(h[c].preds@ == g[c].preds@);
    let ps = g[c].preds@;
    if ps.len() > 0 {
        assert forall|x: u16| meet(h, c).contains(x) implies meet(g, c).contains(x) by {
            if x != c {
                assert forall|i: int| 0 <= i < ps.len() implies #[trigger] g[ps[i]].dominators@.contains(x) by {
                    assert(h[ps[i]].dominators@.contains(x));
                    assert(g[c].preds@.contains(ps[i]));
                    assert(dom_set(h, ps[i]).contains(x));
                }
            }
        }
    }
}

/// Computes the dominators of every block by iterating the dominator
/// equations to a fixed point, starting from "every block dominates every
/// block but the entry".
pub fn compute_dominators(blocks: &mut AddrMap<BasicBlock>, entry_addr: u16)
    requires
        old(blocks).wf(),
        preds_closed(old(blocks).map()),
    ensures
        final(blocks).wf(),
        same_edges(final(blocks).map(), old(blocks).map()),
        dominators_solved(final(blocks).map(), entry_addr),
        dominators_greatest(final(blocks).map(), entry_addr),
        forall|k: u16, d: u16|
            final(blocks).map().dom().contains(k) && #[trigger] final(blocks).map()[k].dominators@.contains(d) ==> on_every_path(
                final(blocks).map(),
                entry_addr,
                k,
                d,
            ),
        (forall|k: u16| #[trigger] final(blocks).map().dom().contains(k) ==> reachable(final(blocks).map(), entry_addr, k))
            ==> forall|k: u16, d: u16|
            final(blocks).map().dom().contains(k) && #[trigger] on_every_path(final(blocks).map(), entry_addr, k, d)
                ==> final(blocks).map()[k].dominators@.contains(d),
{
    let ghost g_in = blocks.map();
    let all_blocks = blocks.keys();
    let mut i: usize = 0;
    while i < blocks.len()
        invariant
            blocks.wf(),
            all_blocks@ == blocks.key_seq(),
            same_edges(blocks.map(), g_in),
            i <= blocks.entries@.len(),
            preds_closed(blocks.map()),
            forall|a: int| 0 <= a < i ==> {
                let e = #[trigger] blocks.entries@[a];
                if e.0 == entry_addr {
                    e.1.dominators@ == seq![entry_addr]
                } else {
                    e.1.dominators@ == all_blocks@
                }
            },
        decreases blocks.entries@.len() - i,
    {
        let key = blocks.entries[i].0;
        let mut b = blocks.entries[i].1.duplicate();
        if key == entry_addr {
            let mut d: Vec<u16> = Vec::new();
            d.push(entry_addr);
            b.dominators = d;
        } else {
            b.dominators = copy_addrs(&all_blocks);
        }
        let ghost g0 = blocks.map();
        blocks.set_value(i, b);
        proof {
            blocks.lemma_entry(i as int);
            assert forall|k: u16| #[trigger] blocks.map().dom().contains(k) implies blocks.map()[k].length
                == g_in[k].length && blocks.map()[k].preds@ == g_in[k].preds@ && blocks.map()[k].succs@
                == g_in[k].succs@ by {
                assert(g0.dom().contains(k));
            }
            assert(blocks.map().dom() =~= g_in.dom());
            assert forall|k: u16, p: u16| blocks.map().dom().contains(k) && #[trigger] blocks.map()[k].preds@.contains(p)
                implies blocks.map().dom().contains(p) by {
                assert(g0[k].preds@.contains(p) || k == key);
            }
        }
        i = i + 1;
    }
    proof {
        let g = blocks.map();
        assert(keys_sorted_seq(all_blocks@)) by {
            assert forall|a: int, c: int| 0 <= a < c < all_blocks@.len() implies #[trigger] all_blocks@[a] < #[trigger] all_blocks@[c] by {
                assert(blocks.entries@[a].0 < blocks.entries@[c].0);
            }
        }
        assert forall|k: u16| #[trigger] g.dom().contains(k) implies strictly_sorted(g[k].dominators@)
            && (forall|x: u16| #[trigger] g[k].dominators@.contains(x) ==> g.dom().contains(x))
            && (k == entry_addr ==> g[k].dominators@ == seq![entry_addr])
            && (k != entry_addr ==> meet(g, k).subset_of(dom_set(g, k))) by {
            let e = blocks.lemma_key(k);
            assert forall|x: u16| #[trigger] all_blocks@.contains(x) implies g.dom().contains(x) by {
                let c = choose|c: int| 0 <= c < all_blocks@.len() && all_blocks@[c] == x;
                blocks.lemma_entry(c);
            }
            if k != entry_addr {
                assert forall|x: u16| meet(g, k).contains(x) implies dom_set(g, k).contains(x) by {
                    assert(g.dom().contains(x)) by {
                        if x != k {
                            let ps = g[k].preds@;
                            assert(ps.len() > 0);
                            let p0 = ps[0];
                            assert(g[k].preds@.contains(p0));
                            assert(g[p0].dominators@.contains(x));
                            let c = blocks.lemma_key(p0);
                            if p0 == entry_addr {
                                assert(x == entry_addr);
                            } else {
                                assert(all_blocks@.contains(x));
                            }
                        }
                    }
                    let c = blocks.lemma_key(x);
                    assert(all_blocks@[c] == x);
                }
            }
        }
    }
    proof {
        let g = blocks.map();
        assert forall|sol: Map<u16, Set<u16>>| #[trigger] dom_fixpoint(g_in, entry_addr, sol) implies forall|k: u16|
            #[trigger] g.dom().contains(k) ==> sol[k].subset_of(dom_set(g, k)) by {
            assert forall|k: u16| #[trigger] g.dom().contains(k) implies sol[k].subset_of(dom_set(g, k)) by {
                assert(g_in.dom().contains(k));
                let e = blocks.lemma_key(k);
                if k != entry_addr {
                    assert forall|x: u16| sol[k].contains(x) implies dom_set(g, k).contains(x) by {
                        assert(g_in.dom().contains(x));
                        let c = blocks.lemma_key(x);
                        assert(all_blocks@[c] == x);
                    }
                } else {
                    assert(g[k].dominators@ == seq![entry_addr]);
                    assert forall|x: u16| sol[k].contains(x) implies dom_set(g, k).contains(x) by {
                        assert(x == entry_addr);
                        assert(g[k].dominators@[0] == x);
                    }
                }
            }
        }
    }
    let mut changed = true;
    while changed
        invariant
            blocks.wf(),
            all_blocks@ == blocks.key_seq(),
            same_edges(blocks.map(), g_in),
            preds_closed(blocks.map()),
            doms_ok(blocks.map()),
            forall|k: u16| #[trigger] blocks.map().dom().contains(k) && k == entry_addr ==> blocks.map()[k].dominators@ == seq![entry_addr],
            forall|k: u16| #[trigger] blocks.map().dom().contains(k) && k != entry_addr ==> meet(blocks.map(), k).subset_of(dom_set(blocks.map(), k)),
            above_solutions(blocks.map(), g_in, entry_addr),
            !changed ==> dominators_solved(blocks.map(), entry_addr),
        decreases total_doms(blocks.entries@) + if changed { 1nat } else { 0nat },
    {
        let ghost start_total = total_doms(blocks.entries@);
        let ghost g_start = blocks.map();
        changed = false;
        let mut i: usize = 0;
        while i < blocks.len()
            invariant
                blocks.wf(),
                all_blocks@ == blocks.key_seq(),
                same_edges(blocks.map(), g_in),
                preds_closed(blocks.map()),
                doms_ok(blocks.map()),
                i <= blocks.entries@.len(),
                forall|k: u16| #[trigger] blocks.map().dom().contains(k) && k == entry_addr ==> blocks.map()[k].dominators@ == seq![entry_addr],
                forall|k: u16| #[trigger] blocks.map().dom().contains(k) && k != entry_addr ==> meet(blocks.map(), k).subset_of(dom_set(blocks.map(), k)),
                above_solutions(blocks.map(), g_in, entry_addr),
                changed ==> total_doms(blocks.entries@) < start_total,
                !changed ==> blocks.map() == g_start && total_doms(blocks.entries@) == start_total,
                !changed ==> forall|a: int| 0 <= a < i && #[trigger] blocks.entries@[a].0 != entry_addr
                    ==> dom_set(blocks.map(), blocks.entries@[a].0) == meet(blocks.map(), blocks.entries@[a].0),
            decreases blocks.entries@.len() - i,
        {
            let key = blocks.entries[i].0;
            proof {
                blocks.lemma_entry(i as int);
            }
            if key != entry_addr {
                let new_doms = meet_of(blocks, key, &all_blocks);
                let ghost g0 = blocks.map();
                let cur_len = blocks.entries[i].1.dominators.len();
                proof {
                    lemma_sorted_no_dups(new_doms@);
                    lemma_sorted_no_dups(g0[key].dominators@);
                    vstd::set_lib::lemma_len_subset(new_doms@.to_set(), g0[key].dominators@.to_set());
                }
                if new_doms.len() != cur_len {
                    let mut b = blocks.entries[i].1.duplicate();
                    b.dominators = new_doms;
                    let ghost nb = b;
                    proof {
                        lemma_total_doms_update(blocks.entries@, i as int, (key, nb));
                    }
                    blocks.set_value(i, b);
                    changed = true;
                    proof {
                        let g1 = blocks.map();
                        assert(g1 == g0.insert(key, nb));
                        assert(same_edges(g1, g_in)) by {
                            assert(g1.dom() =~= g0.dom());
                            assert forall|k: u16| #[trigger] g1.dom().contains(k) implies g1[k].length == g_in[k].length
                                && g1[k].preds@ == g_in[k].preds@ && g1[k].succs@ == g_in[k].succs@ by {
                                assert(g0.dom().contains(k));
                            }
                        }
                        assert(same_edges(g1, g0)) by {
                            assert(g1.dom() =~= g0.dom());
                        }
                        assert forall|k: u16, p: u16| g1.dom().contains(k) && #[trigger] g1[k].preds@.contains(p)
                            implies g1.dom().contains(p) by {
                            assert(g0[k].preds@.contains(p));
                        }
                        assert forall|k: u16| #[trigger] g1.dom().contains(k) implies dom_set(g1, k).subset_of(dom_set(g0, k)) by {}
                        assert forall|k: u16| #[trigger] g1.dom().contains(k) && k != entry_addr
                            implies meet(g1, k).subset_of(dom_set(g1, k)) by {
                            lemma_meet_monotone(g0, g1, k);
                        }
                        assert(doms_ok(g1));
                        assert forall|sol: Map<u16, Set<u16>>| #[trigger] dom_fixpoint(g_in, entry_addr, sol) implies forall|k: u16|
                            #[trigger] g1.dom().contains(k) ==> sol[k].subset_of(dom_set(g1, k)) by {
                            lemma_meet_above(g0, g_in, entry_addr, sol, key);
                            assert forall|k: u16| #[trigger] g1.dom().contains(k) implies sol[k].subset_of(dom_set(g1, k)) by {
                                assert(g0.dom().contains(k));
                                if k != key {
                                    assert(dom_set(g1, k) == dom_set(g0, k));
                                }
                            }
                        }
                    }
                } else {
                    proof {
                        vstd::seq_lib::seq_to_set_is_finite(new_doms@);
                        vstd::seq_lib::seq_to_set_is_finite(g0[key].dominators@);
                        vstd::set_lib::lemma_subset_equality(new_doms@.to_set(), g0[key].dominators@.to_set());
                    }
                }
            }
            i = i + 1;
        }
        proof {
            if !changed {
                let g = blocks.map();
                assert forall|k: u16| #[trigger] g.dom().contains(k) implies strictly_sorted(g[k].dominators@) && (k == entry_addr
                    ==> g[k].dominators@ == seq![entry_addr]) && (k != entry_addr ==> dom_set(g, k) == meet(g, k)) by {
                    let a = blocks.lemma_key(k);
                    if k != entry_addr {
                        assert(blocks.entries@[a].0 != entry_addr);
                    }
                }
            }
        }
    }
    proof {
        let g = blocks.map();
        assert forall|sol: Map<u16, Set<u16>>| #[trigger] dom_fixpoint(g, entry_addr, sol) implies forall|k: u16|
            #[trigger] g.dom().contains(k) ==> sol[k].subset_of(dom_set(g, k)) by {
            lemma_dom_fixpoint_same_edges(g, g_in, entry_addr, sol);
        }
        assert forall|k: u16, p: u16| g.dom().contains(k) && #[trigger] g[k].preds@.contains(p) implies g.dom().contains(p) by {
            assert(g_in[k].preds@.contains(p));
        }
        law_dominators_paths(g, entry_addr);
    }
}

/// Keys strictly increase.
pub open spec fn keys_sorted_seq(s: Seq<u16>) -> bool {
    forall|a: int, c: int| 0 <= a < c < s.len() ==> #[trigger] s[a] < #[trigger] s[c]
}

/// What the natural loop of the back edge `tail -> header` satisfies: it
/// starts with the header, holds the tail and no block twice; every block in it
/// but the header has all its predecessors in it; and every block in it but the
/// header and the tail is a predecessor of a block in it other than the header.
pub open spec fn is_natural_loop(g: Map<u16, BasicBlock>, header: u16, tail: u16, l: Seq<u16>) -> bool {
    &&& l.len() > 0
    &&& l[0] == header
    &&& l.contains(tail)
    &&& no_dups(l)
    &&& forall|x: u16, p: u16|
        #[trigger] l.contains(x) && x != header && g.dom().contains(x) && #[trigger] g[x].preds@.contains(p) ==> l.contains(p)
    &&& forall|x: u16|
        #[trigger] l.contains(x) && x != header && x != tail ==> exists|y: u16|
            #[trigger] l.contains(y) && y != header && g.dom().contains(y) && g[y].preds@.contains(x)
}

/// A set of blocks that holds the header and the tail of a back edge, and
/// every predecessor of each of its blocks but the header.
pub open spec fn loop_closed(g: Map<u16, BasicBlock>, header: u16, tail: u16, w: Set<u16>) -> bool {
    &&& w.contains(header)
    &&& w.contains(tail)
    &&& forall|x: u16, p: u16|
        #[trigger] w.contains(x) && x != header && g.dom().contains(x) && #[trigger] g[x].preds@.contains(p) ==> w.contains(p)
}

/// Every set closed as `loop_closed` asks holds every block of `l`: the
/// natural loop is the least such set.
pub open spec fn loop_least(g: Map<u16, BasicBlock>, header: u16, tail: u16, l: Seq<u16>) -> bool {
    forall|w: Set<u16>| #[trigger] loop_closed(g, header, tail, w) ==> forall|x: u16| #[trigger] l.contains(x) ==> w.contains(x)
}

/// Computes the natural loop of the back edge `tail -> header`: the header and
/// every block that reaches the tail without passing through the header.
#[verifier::rlimit(50)]
pub fn natural_loop_for_edge(header: u16, tail: u16, blocks: &AddrMap<BasicBlock>) -> (l: NaturalLoop)
    requires
        blocks.wf(),
    ensures
        l.header == header,
        is_natural_loop(blocks.map(), header, tail, l.blocks@),
        loop_least(blocks.map(), header, tail, l.blocks@),
{
    let ghost g = blocks.map();
    let mut work_list: Vec<u16> = Vec::new();
    let mut loop_obj = NaturalLoop::new(header);
    let mut members = AddrSet::new();
    members.insert(header);
    if header != tail {
        loop_obj.blocks.push(tail);
        members.insert(tail);
        work_list.push(tail);
    }
    proof {
        let l = loop_obj.blocks@;
        assert(l[0] == header);
        if header != tail {
            assert(l[1] == tail);
            assert(work_list@[0] == tail);
        }
        assert(l.contains(tail)) by {
            if header == tail { assert(l[0] == tail); } else { assert(l[1] == tail); }
        }
        assert forall|x: u16| members.set().contains(x) <==> l.contains(x) by {
            if x == header { assert(l[0] == x); }
            if header != tail && x == tail { assert(l[1] == x); }
        }
        assert forall|w: Set<u16>| #[trigger] loop_closed(g, header, tail, w) implies forall|x: u16| #[trigger] l.contains(x) ==> w.contains(x) by {
            assert forall|x: u16| #[trigger] l.contains(x) implies w.contains(x) by {
                assert(members.set().contains(x));
            }
        }
    }
    while work_list.len() > 0
        invariant
            blocks.wf(),
            g == blocks.map(),
            members.wf(),
            loop_obj.header == header,
            loop_obj.blocks@.len() > 0,
            loop_obj.blocks@[0] == header,
            loop_obj.blocks@.contains(tail),
            no_dups(loop_obj.blocks@),
            forall|x: u16| members.set().contains(x) <==> #[trigger] loop_obj.blocks@.contains(x),
            forall|i: int| 0 <= i < work_list@.len() ==> loop_obj.blocks@.contains(#[trigger] work_list@[i]) && work_list@[i] != header,
            forall|x: u16, p: u16|
                #[trigger] loop_obj.blocks@.contains(x) && x != header && g.dom().contains(x) && #[trigger] g[x].preds@.contains(p)
                    ==> loop_obj.blocks@.contains(p) || work_list@.contains(x),
            forall|x: u16|
                #[trigger] loop_obj.blocks@.contains(x) && x != header && x != tail ==> exists|y: u16|
                    #[trigger] loop_obj.blocks@.contains(y) && y != header && g.dom().contains(y) && g[y].preds@.contains(x),
            loop_least(g, header, tail, loop_obj.blocks@),
        decreases 0x10000 - members.count, work_list@.len(),
    {
        let ghost w0 = work_list@;
        let block_addr = match work_list.pop() {
            Some(a) => a,
            None => header,
        };
        proof {
            assert(w0.last() == block_addr);
            assert(work_list@ == w0.drop_last());
            members.lemma_count_bound();
            assert(loop_obj.blocks@.contains(block_addr) && block_addr != header) by {
                assert(w0[w0.len() - 1] == block_addr);
            }
            assert forall|i: int| 0 <= i < work_list@.len() implies loop_obj.blocks@.contains(#[trigger] work_list@[i]) && work_list@[i] != header by {
                assert(work_list@[i] == w0[i]);
            }
        }
        let ghost count0 = members.count;
        let preds = match blocks.get(block_addr) {
            Some(b) => copy_addrs(&b.preds),
            None => Vec::new(),
        };
        let ghost work1 = work_list@;
        proof {
            let l = loop_obj.blocks@;
            assert forall|x: u16, p: u16|
                #[trigger] l.contains(x) && x != header && g.dom().contains(x) && #[trigger] g[x].preds@.contains(p)
                    implies l.contains(p) || work_list@.contains(x) || x == block_addr by {
                if !l.contains(p) && x != block_addr {
                    assert(w0.contains(x));
                    lemma_drop_last_contains(w0, x);
                }
            }
        }
        let mut j: usize = 0;
        while j < preds.len()
            invariant
                blocks.wf(),
                g == blocks.map(),
                members.wf(),
                members.count >= count0,
                loop_obj.header == header,
                loop_obj.blocks@.len() > 0,
                loop_obj.blocks@[0] == header,
                loop_obj.blocks@.contains(tail),
                loop_obj.blocks@.contains(block_addr),
                block_addr != header,
                no_dups(loop_obj.blocks@),
                j <= preds@.len(),
                g.dom().contains(block_addr) ==> preds@ == g[block_addr].preds@,
                !g.dom().contains(block_addr) ==> preds@.len() == 0,
                forall|x: u16| members.set().contains(x) <==> #[trigger] loop_obj.blocks@.contains(x),
                forall|i: int| 0 <= i < work_list@.len() ==> loop_obj.blocks@.contains(#[trigger] work_list@[i]) && work_list@[i] != header,
                forall|q: int| 0 <= q < j ==> loop_obj.blocks@.contains(#[trigger] preds@[q]),
                work_list@.len() >= work1.len(),
                work_list@.len() > work1.len() ==> members.count > count0,
                forall|i: int| 0 <= i < work1.len() ==> work_list@[i] == work1[i],
                forall|x: u16, p: u16|
                    #[trigger] loop_obj.blocks@.contains(x) && x != header && g.dom().contains(x) && #[trigger] g[x].preds@.contains(p)
                        ==> loop_obj.blocks@.contains(p) || work_list@.contains(x) || x == block_addr,
                forall|x: u16|
                    #[trigger] loop_obj.blocks@.contains(x) && x != header && x != tail ==> exists|y: u16|
                        #[trigger] loop_obj.blocks@.contains(y) && y != header && g.dom().contains(y) && g[y].preds@.contains(x),
                loop_least(g, header, tail, loop_obj.blocks@),
            decreases preds@.len() - j,
        {
            let pred = preds[j];
            let ghost l0 = loop_obj.blocks@;
            let ghost wl0 = work_list@;
            if !members.contains(pred) {
                proof {
                    assert(l0.contains(header)) by {
                        assert(l0[0] == header);
                    }
                    assert(members.set().contains(header));
                }
                members.insert(pred);
                loop_obj.blocks.push(pred);
                work_list.push(pred);
                proof {
                    let l = loop_obj.blocks@;
                    assert(l[l.len() - 1] == pred);
                    assert forall|x: u16| #[trigger] l.contains(x) <==> l0.contains(x) || x == pred by {
                        if l.contains(x) && x != pred {
                            let i = choose|i: int| 0 <= i < l.len() && l[i] == x;
                            assert(l0[i] == x);
                        }
                        if l0.contains(x) {
                            let i = choose|i: int| 0 <= i < l0.len() && l0[i] == x;
                            assert(l[i] == x);
                        }
                    }
                    assert(no_dups(l)) by {
                        assert forall|a: int, c: int| 0 <= a < c < l.len() implies l[a] != l[c] by {
                            if c == l.len() - 1 {
                                assert(l0.contains(l[a]));
                            }
                        }
                    }
                    let w = work_list@;
                    assert forall|x: u16| wl0.contains(x) implies #[trigger] w.contains(x) by {
                        let i = choose|i: int| 0 <= i < wl0.len() && wl0[i] == x;
                        assert(w[i] == x);
                    }
                    assert(w.contains(pred)) by { assert(w[w.len() - 1] == pred); }
                    assert forall|x: u16| #[trigger] l.contains(x) && x != header && x != tail implies exists|y: u16|
                        #[trigger] l.contains(y) && y != header && g.dom().contains(y) && g[y].preds@.contains(x) by {
                        if x == pred {
                            assert(preds@[j as int] == pred);
                            assert(g.dom().contains(block_addr));
                            assert(g[block_addr].preds@.contains(pred));
                            assert(l.contains(block_addr));
                        } else {
                            let y = choose|y: u16| #[trigger] l0.contains(y) && y != header && g.dom().contains(y) && g[y].preds@.contains(x);
                            assert(l.contains(y));
                        }
                    }
                    assert forall|i: int| 0 <= i < w.len() implies l.contains(#[trigger] w[i]) && w[i] != header by {
                        if i < wl0.len() {
                            assert(w[i] == wl0[i]);
                        }
                    }
                    assert forall|ws: Set<u16>| #[trigger] loop_closed(g, header, tail, ws) implies forall|x: u16| #[trigger] l.contains(x) ==> ws.contains(x) by {
                        assert(l0.contains(block_addr));
                        assert(ws.contains(block_addr));
                        assert(preds@[j as int] == pred);
                        assert(g.dom().contains(block_addr));
                        assert(g[block_addr].preds@.contains(pred));
                        assert(ws.contains(pred));
                    }
                }
            }
            j = j + 1;
        }
        proof {
            let l = loop_obj.blocks@;
            let w = work_list@;
            assert forall|x: u16, p: u16|
                #[trigger] l.contains(x) && x != header && g.dom().contains(x) && #[trigger] g[x].preds@.contains(p)
                    implies l.contains(p) || w.contains(x) by {
                if x == block_addr {
                    let q = choose|q: int| 0 <= q < g[x].preds@.len() && g[x].preds@[q] == p;
                    assert(preds@[q] == p);
                }
            }
            members.lemma_count_bound();
        }
    }
    loop_obj
}

/// The back edges `tail -> header` leaving the blocks of an entry sequence,
/// in order: for each block but the entry, each successor that dominates it.
pub open spec fn back_edges(s: Seq<(u16, BasicBlock)>, entry: u16) -> Seq<(u16, u16)>
    decreases s.len(),
{
    if s.len() == 0 {
        Seq::empty()
    } else {
        let (a, b) = s.last();
        back_edges(s.drop_last(), entry) + if a == entry {
            Seq::empty()
        } else {
            dominating_succs(b.succs@, b.dominators@, a)
        }
    }
}

/// The edges `a -> s` for the successors `s` of `a` that are among `doms`.
pub open spec fn dominating_succs(succs: Seq<u16>, doms: Seq<u16>, a: u16) -> Seq<(u16, u16)>
    decreases succs.len(),
{
    if succs.len() == 0 {
        Seq::empty()
    } else {
        dominating_succs(succs.drop_last(), doms, a) + if doms.contains(succs.last()) {
            seq![(succs.last(), a)]
        } else {
            Seq::empty()
        }
    }
}

/// Finds the natural loop of every back edge: an edge from a block (other
/// than the entry) to a successor that dominates it.
pub fn compute_natural_loops(blocks: &AddrMap<BasicBlock>, entry_addr: u16) -> (loops: Vec<NaturalLoop>)
    requires
        blocks.wf(),
    ensures
        loops@.len() == back_edges(blocks.entries@, entry_addr).len(),
        forall|i: int| 0 <= i < loops@.len() ==> {
            let e = back_edges(blocks.entries@, entry_addr)[i];
            &&& (#[trigger] loops@[i]).header == e.0
            &&& is_natural_loop(blocks.map(), e.0, e.1, loops@[i].blocks@)
            &&& loop_least(blocks.map(), e.0, e.1, loops@[i].blocks@)
        },
{
    let mut loop_set: Vec<NaturalLoop> = Vec::new();
    let mut i: usize = 0;
    while i < blocks.len()
        invariant
            blocks.wf(),
            i <= blocks.entries@.len(),
            loop_set@.len() == back_edges(blocks.entries@.subrange(0, i as int), entry_addr).len(),
            forall|q: int| 0 <= q < loop_set@.len() ==> {
                let e = back_edges(blocks.entries@.subrange(0, i as int), entry_addr)[q];
                &&& (#[trigger] loop_set@[q]).header == e.0
                &&& is_natural_loop(blocks.map(), e.0, e.1, loop_set@[q].blocks@)
                &&& loop_least(blocks.map(), e.0, e.1, loop_set@[q].blocks@)
            },
        decreases blocks.entries@.len() - i,
    {
        let block_addr = blocks.entries[i].0;
        let ghost pre = blocks.entries@.subrange(0, i as int);
        let ghost edges0 = back_edges(pre, entry_addr);
        proof {
            assert(blocks.entries@.subrange(0, i + 1).drop_last() =~= pre);
        }
        if block_addr != entry_addr {
            let succs = copy_addrs(&blocks.entries[i].1.succs);
            let doms = copy_addrs(&blocks.entries[i].1.dominators);
            let mut j: usize = 0;
            while j < succs.len()
                invariant
                    blocks.wf(),
                    j <= succs@.len(),
                    loop_set@.len() == edges0.len() + dominating_succs(succs@.subrange(0, j as int), doms@, block_addr).len(),
                    forall|q: int| 0 <= q < loop_set@.len() ==> {
                        let e = (edges0 + dominating_succs(succs@.subrange(0, j as int), doms@, block_addr))[q];
                        &&& (#[trigger] loop_set@[q]).header == e.0
                        &&& is_natural_loop(blocks.map(), e.0, e.1, loop_set@[q].blocks@)
                        &&& loop_least(blocks.map(), e.0, e.1, loop_set@[q].blocks@)
                    },
                decreases succs@.len() - j,
            {
                let succ = succs[j];
                let ghost before = dominating_succs(succs@.subrange(0, j as int), doms@, block_addr);
                proof {
                    assert(succs@.subrange(0, j + 1).drop_last() =~= succs@.subrange(0, j as int));
                    assert(succs@.subrange(0, j + 1).last() == succ);
                }
                if has_addr(&doms, succ) {
                    let natural_loop = natural_loop_for_edge(succ, block_addr, blocks);
                    let ghost l0 = loop_set@;
                    loop_set.push(natural_loop);
                    proof {
                        let after = dominating_succs(succs@.subrange(0, j + 1), doms@, block_addr);
                        assert(after =~= before + seq![(succ, block_addr)]);
                        assert forall|q: int| 0 <= q < loop_set@.len() implies {
                            let e = (edges0 + after)[q];
                            &&& (#[trigger] loop_set@[q]).header == e.0
                            &&& is_natural_loop(blocks.map(), e.0, e.1, loop_set@[q].blocks@)
                            &&& loop_least(blocks.map(), e.0, e.1, loop_set@[q].blocks@)
                        } by {
                            if q < l0.len() {
                                assert((edges0 + after)[q] == (edges0 + before)[q]);
                                assert(loop_set@[q] == l0[q]);
                            } else {
                                assert((edges0 + after)[q] == (succ, block_addr));
                            }
                        }
                    }
                } else {
                    proof {
                        let after = dominating_succs(succs@.subrange(0, j + 1), doms@, block_addr);
                        assert(after =~= before);
                    }
                }
                j = j + 1;
            }
            proof {
                assert(succs@.subrange(0, j as int) =~= succs@);
                assert(blocks.entries@.subrange(0, i + 1).last() == blocks.entries@[i as int]);
            }
        } else {
            proof {
                assert(blocks.entries@.subrange(0, i + 1).last() == blocks.entries@[i as int]);
                assert(back_edges(blocks.entries@.subrange(0, i + 1), entry_addr) =~= edges0);
            }
        }
        i = i + 1;
    }
    proof {
        assert(blocks.entries@.subrange(0, i as int) =~= blocks.entries@);
    }
    loop_set
}

/// Whether `p` is a path in the graph from `entry`: it starts at `entry`, all
/// its blocks are blocks of the graph, and each block is a predecessor of
/// the next.
pub open spec fn pred_path(g: Map<u16, BasicBlock>, entry: u16, p: Seq<u16>) -> bool {
    &&& p.len() >= 1
    &&& p[0] == entry
    &&& forall|i: int| 0 <= i < p.len() ==> g.dom().contains(#[trigger] p[i])
    &&& forall|i: int| 0 <= i < p.len() - 1 ==> #[trigger] g[p[i + 1]].preds@.contains(p[i])
}

/// Whether some path from `entry` ends at `k`.
pub open spec fn reachable(g: Map<u16, BasicBlock>, entry: u16, k: u16) -> bool {
    exists|p: Seq<u16>| #[trigger] pred_path(g, entry, p) && p.last() == k
}

/// Whether every path from `entry` to `k` passes through `d`.
pub open spec fn on_every_path(g: Map<u16, BasicBlock>, entry: u16, k: u16, d: u16) -> bool {
    forall|p: Seq<u16>| #[trigger] pred_path(g, entry, p) && p.last() == k ==> p.contains(d)
}

proof fn lemma_path_prefix(g: Map<u16, BasicBlock>, entry: u16, p: Seq<u16>)
    requires
        pred_path(g, entry, p),
        p.len() >= 2,
    ensures
        pred_path(g, entry, p.drop_last()),
        p.drop_last().last() == p[p.len() - 2],
        g[p.last()].preds@.contains(p[p.len() - 2]),
{
    let q = p.drop_last();
    assert forall|i: int| 0 <= i < q.len() implies g.dom().contains(#[trigger] q[i]) by {
        assert(q[i] == p[i]);
    }
    assert forall|i: int| 0 <= i < q.len() - 1 implies #[trigger] g[q[i + 1]].preds@.contains(q[i]) by {
        assert(q[i] == p[i] && q[i + 1] == p[i + 1]);
    }
    assert(g[p[(p.len() - 2) + 1]].preds@.contains(p[p.len() - 2]));
}

proof fn lemma_path_push(g: Map<u16, BasicBlock>, entry: u16, p: Seq<u16>, k: u16)
    requires
        pred_path(g, entry, p),
        g.dom().contains(k),
        g[k].preds@.contains(p.last()),
    ensures
        pred_path(g, entry, p.push(k)),
        p.push(k).last() == k,
{
    let q = p.push(k);
    assert forall|i: int| 0 <= i < q.len() implies g.dom().contains(#[trigger] q[i]) by {
        if i < p.len() {
            assert(q[i] == p[i]);
        }
    }
    assert forall|i: int| 0 <= i < q.len() - 1 implies #[trigger] g[q[i + 1]].preds@.contains(q[i]) by {
        assert(q[i] == p[i]);
        if i + 1 < p.len() {
            assert(q[i + 1] == p[i + 1]);
        }
    }
}

/// A dominator of the last block of a path lies on the path.
proof fn lemma_dominator_on_path(g: Map<u16, BasicBlock>, entry: u16, p: Seq<u16>, d: u16)
    requires
        dominators_solved(g, entry),
        pred_path(g, entry, p),
        g[p.last()].dominators@.contains(d),
    ensures
        p.contains(d),
    decreases p.len(),
{
    let k = p.last();
    assert(g.dom().contains(p[p.len() - 1]));
    if d == k {
        assert(p[p.len() - 1] == d);
    } else if k == entry {
        assert(g[k].dominators@ == seq![entry]);
        assert(g[k].dominators@[0] == entry);
        assert(p[0] == d);
    } else {
        assert(dom_set(g, k).contains(d));
        assert(meet(g, k).contains(d));
        if p.len() == 1 {
            assert(p[0] == entry);
        } else {
            lemma_path_prefix(g, entry, p);
            let q = p.drop_last();
            let ps = g[k].preds@;
            let i = choose|i: int| 0 <= i < ps.len() && ps[i] == p[p.len() - 2];
            assert(g[ps[i]].dominators@.contains(d));
            lemma_dominator_on_path(g, entry, q, d);
            let j = choose|j: int| 0 <= j < q.len() && q[j] == d;
            assert(p[j] == d);
        }
    }
}

/// The blocks on every path from the entry to `k`.
pub open spec fn path_doms(g: Map<u16, BasicBlock>, entry: u16) -> Map<u16, Set<u16>> {
    Map::new(|k: u16| g.dom().contains(k), |k: u16| Set::new(|d: u16| g.dom().contains(d) && on_every_path(g, entry, k, d)))
}

proof fn lemma_path_doms_solve(g: Map<u16, BasicBlock>, entry: u16)
    requires
        preds_closed(g),
        g.dom().contains(entry),
        forall|k: u16| #[trigger] g.dom().contains(k) ==> reachable(g, entry, k),
    ensures
        dom_fixpoint(g, entry, path_doms(g, entry)),
{
    let s = path_doms(g, entry);
    assert forall|k: u16| #[trigger] g.dom().contains(k) implies s.dom().contains(k) && s[k].subset_of(g.dom()) && (k == entry ==> s[k]
        == set![entry]) && (k != entry ==> s[k] == meet_with(g, s, k)) by {
        assert(reachable(g, entry, k));
        let p0 = choose|p: Seq<u16>| #[trigger] pred_path(g, entry, p) && p.last() == k;
        if k == entry {
            let one = seq![entry];
            assert(pred_path(g, entry, one));
            assert forall|d: u16| #[trigger] s[k].contains(d) <==> set![entry].contains(d) by {
                if s[k].contains(d) {
                    assert(on_every_path(g, entry, k, d));
                    assert(one.last() == k);
                    assert(one.contains(d));
                    let j = choose|j: int| 0 <= j < one.len() && one[j] == d;
                }
                if d == entry {
                    assert forall|p: Seq<u16>| #[trigger] pred_path(g, entry, p) && p.last() == k implies p.contains(d) by {
                        assert(p[0] == d);
                    }
                }
            }
            assert(s[k] =~= set![entry]);
        } else {
            assert(p0.len() >= 2) by {
                if p0.len() == 1 {
                    assert(p0[0] == entry);
                }
            }
            lemma_path_prefix(g, entry, p0);
            let ps = g[k].preds@;
            assert(ps.len() > 0);
            assert forall|d: u16| #[trigger] s[k].contains(d) <==> meet_with(g, s, k).contains(d) by {
                if s[k].contains(d) && d != k {
                    assert forall|i: int| 0 <= i < ps.len() implies #[trigger] s[ps[i]].contains(d) by {
                        let q = ps[i];
                        assert(g[k].preds@.contains(q));
                        assert(g.dom().contains(q));
                        assert forall|p: Seq<u16>| #[trigger] pred_path(g, entry, p) && p.last() == q implies p.contains(d) by {
                            lemma_path_push(g, entry, p, k);
                            assert(on_every_path(g, entry, k, d));
                            assert(p.push(k).contains(d));
                            let j = choose|j: int| 0 <= j < p.push(k).len() && p.push(k)[j] == d;
                            assert(p[j] == d);
                        }
                    }
                }
                if meet_with(g, s, k).contains(d) {
                    if d == k {
                        assert forall|p: Seq<u16>| #[trigger] pred_path(g, entry, p) && p.last() == k implies p.contains(d) by {
                            assert(p[p.len() - 1] == d);
                        }
                    } else {
                        assert forall|p: Seq<u16>| #[trigger] pred_path(g, entry, p) && p.last() == k implies p.contains(d) by {
                            if p.len() == 1 {
                                assert(p[0] == entry);
                            }
                            lemma_path_prefix(g, entry, p);
                            let i = choose|i: int| 0 <= i < ps.len() && ps[i] == p[p.len() - 2];
                            assert(s[ps[i]].contains(d));
                            let q = p.drop_last();
                            assert(on_every_path(g, entry, ps[i], d));
                            assert(q.contains(d));
                            let j = choose|j: int| 0 <= j < q.len() && q[j] == d;
                            assert(p[j] == d);
                        }
                        let i0 = choose|i: int| 0 <= i < ps.len() && ps[i] == p0[p0.len() - 2];
                        assert(s[ps[i0]].contains(d));
                    }
                }
            }
            assert(s[k] =~= meet_with(g, s, k));
        }
    }
}

/// The computed dominators are the blocks on every path: once the
/// dominators solve the dominator equations as their greatest solution (as
/// `compute_dominators` leaves them), a block's dominator lies on every path
/// from the entry to it, where a path follows predecessor edges; and where
/// every block is reached from the entry, each block that lies on every
/// path from the entry to a block is one of its dominators.
pub proof fn law_dominators_paths(g: Map<u16, BasicBlock>, entry: u16)
    requires
        dominators_solved(g, entry),
        dominators_greatest(g, entry),
        preds_closed(g),
    ensures
        forall|k: u16, d: u16| g.dom().contains(k) && #[trigger] g[k].dominators@.contains(d) ==> on_every_path(g, entry, k, d),
        (forall|k: u16| #[trigger] g.dom().contains(k) ==> reachable(g, entry, k)) ==> forall|k: u16, d: u16|
            g.dom().contains(k) && #[trigger] on_every_path(g, entry, k, d) ==> g[k].dominators@.contains(d),
{
    assert forall|k: u16, d: u16| g.dom().contains(k) && #[trigger] g[k].dominators@.contains(d) implies on_every_path(g, entry, k, d) by {
        assert forall|p: Seq<u16>| #[trigger] pred_path(g, entry, p) && p.last() == k implies p.contains(d) by {
            lemma_dominator_on_path(g, entry, p, d);
        }
    }
    if forall|k: u16| #[trigger] g.dom().contains(k) ==> reachable(g, entry, k) {
        assert forall|k: u16, d: u16| g.dom().contains(k) && #[trigger] on_every_path(g, entry, k, d) implies g[k].dominators@.contains(d) by {
            let p0 = choose|p: Seq<u16>| #[trigger] pred_path(g, entry, p) && p.last() == k;
            assert(g.dom().contains(p0[0]));
            lemma_path_doms_solve(g, entry);
            let s = path_doms(g, entry);
            assert(s[k].subset_of(dom_set(g, k)));
            assert(p0.contains(d));
            let j = choose|j: int| 0 <= j < p0.len() && p0[j] == d;
            assert(g.dom().contains(p0[j]));
            assert(s[k].contains(d));
            assert(dom_set(g, k).contains(d));
        }
    }
}

} // verus!
