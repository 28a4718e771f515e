use vstd::prelude::*;
use crate::addr_map::AddrMap;
use crate::cfg::{BasicBlock, NaturalLoop, copy_addrs, has_addr};
use crate::control_flow::{Conditional, ConditionalType, cond_scan};

verus! {

/// A natural loop with the blocks outside it that its blocks lead to.
#[derive(Debug, Clone)]
pub struct IdentifiedLoop {
    pub header: u16,
    pub blocks: Vec<u16>,
    pub exit_nodes: Vec<u16>,
}

/// The kind of conditional structure identified.
#[derive(Debug, Clone, Copy, PartialEq, Eq)]
pub enum ConditionalKind {
    If,
    IfElse,
}

/// A conditional structure: the block that branches, the heads of its
/// branches (the false one only for an if-else) and the block where they
/// meet.
#[derive(Debug, Clone, Copy, PartialEq, Eq)]
pub struct IdentifiedConditional {
    pub kind: ConditionalKind,
    pub condition_block: u16,
    pub true_branch_head: u16,
    pub false_branch_head: Option<u16>,
    pub join_block: u16,
}

/// Whether `s` is a successor, outside the loop, of one of the loop's
/// blocks.
pub open spec fn is_exit(g: Map<u16, BasicBlock>, blocks: Seq<u16>, s: u16) -> bool {
    !blocks.contains(s) && exists|b: u16| #[trigger] blocks.contains(b) && g.dom().contains(b) && g[b].succs@.contains(s)
}

/// The blocks outside a loop that its blocks lead to.
pub open spec fn exit_set(g: Map<u16, BasicBlock>, blocks: Seq<u16>) -> Set<u16> {
    Set::new(|s: u16| is_exit(g, blocks, s))
}

/// The structure of a conditional found by the control-flow analysis.
pub open spec fn as_identified(c: Conditional) -> IdentifiedConditional {
    IdentifiedConditional {
        kind: match c.kind {
            ConditionalType::If => ConditionalKind::If,
            ConditionalType::IfElse => ConditionalKind::IfElse,
        },
        condition_block: c.condition_block,
        true_branch_head: c.true_block,
        false_branch_head: c.false_block,
        join_block: c.join_block,
    }
}

/// Adds to `exits` the successors of block `b` that are outside the loop
/// and not in `exits` yet.
fn add_exits(g: &AddrMap<BasicBlock>, blocks: &Vec<u16>, b: u16, exits: &mut Vec<u16>)
    requires
        g.wf(),
        old(exits)@.no_duplicates(),
    ensures
        final(exits)@.no_duplicates(),
        forall|s: u16| #[trigger] final(exits)@.contains(s) <==> old(exits)@.contains(s) || (!blocks@.contains(s)
            && g.map().dom().contains(b) && g.map()[b].succs@.contains(s)),
{
    match g.get(b) {
        Some(block) => {
            let ghost e0 = exits@;
            let mut j: usize = 0;
            while j < block.succs.len()
                invariant
                    j <= block.succs@.len(),
                    exits@.no_duplicates(),
                    forall|s: u16| #[trigger] exits@.contains(s) <==> e0.contains(s) || (!blocks@.contains(s)
                        && block.succs@.subrange(0, j as int).contains(s)),
                decreases block.succs@.len() - j,
            {
                let s = block.succs[j];
                let ghost eb = exits@;
                if !has_addr(blocks, s) && !has_addr(exits, s) {
                    exits.push(s);
                    proof {
                        assert forall|x: u16| #[trigger] exits@.contains(x) <==> eb.contains(x) || x == s by {
                            if exits@.contains(x) {
                                let k = choose|k: int| 0 <= k < exits@.len() && exits@[k] == x;
                                if k < eb.len() {
                                    assert(eb[k] == x);
                                }
                            }
                            if eb.contains(x) {
                                let k = choose|k: int| 0 <= k < eb.len() && eb[k] == x;
                                assert(exits@[k] == x);
                            }
                            if x == s {
                                assert(exits@[eb.len() as int] == s);
                            }
                        }
                    }
                }
                proof {
                    let t = block.succs@.subrange(0, j + 1);
                    assert forall|x: u16| t.contains(x) <==> block.succs@.subrange(0, j as int).contains(x) || x == s by {
                        if t.contains(x) {
                            let k = choose|k: int| 0 <= k < t.len() && t[k] == x;
                            if k < j {
                                assert(block.succs@.subrange(0, j as int)[k] == x);
                            }
                        }
                        if block.succs@.subrange(0, j as int).contains(x) {
                            let k = choose|k: int| 0 <= k < j && block.succs@.subrange(0, j as int)[k] == x;
                            assert(t[k] == x);
                        }
                        if x == s {
                            assert(t[j as int] == s);
                        }
                    }
                }
                j = j + 1;
            }
            proof {
                assert(block.succs@.subrange(0, j as int) =~= block.succs@);
            }
        },
        None => {},
    }
}

/// The blocks outside a loop that its blocks lead to, each once.
fn loop_exits(g: &AddrMap<BasicBlock>, blocks: &Vec<u16>) -> (exits: Vec<u16>)
    requires
        g.wf(),
    ensures
        exits@.no_duplicates(),
        exits@.to_set() == exit_set(g.map(), blocks@),
{
    let mut exits: Vec<u16> = Vec::new();
    let mut i: usize = 0;
    while i < blocks.len()
        invariant
            i <= blocks@.len(),
            g.wf(),
            exits@.no_duplicates(),
            forall|s: u16| #[trigger] exits@.contains(s) <==> !blocks@.contains(s) && exists|b: u16| #[trigger]
                blocks@.subrange(0, i as int).contains(b) && g.map().dom().contains(b) && g.map()[b].succs@.contains(s),
        decreases blocks@.len() - i,
    {
        let b = blocks[i];
        let ghost eb = exits@;
        add_exits(g, blocks, b, &mut exits);
        proof {
            let t = blocks@.subrange(0, i + 1);
            let p = blocks@.subrange(0, i as int);
            assert(t[i as int] == b);
            assert forall|x: u16| t.contains(x) <==> p.contains(x) || x == b by {
                if t.contains(x) {
                    let k = choose|k: int| 0 <= k < t.len() && t[k] == x;
                    if k < i {
                        assert(p[k] == x);
                    }
                }
                if p.contains(x) {
                    let k = choose|k: int| 0 <= k < p.len() && p[k] == x;
                    assert(t[k] == x);
                }
            }
            assert forall|s: u16| #[trigger] exits@.contains(s) <==> !blocks@.contains(s) && exists|c: u16| #[trigger]
                t.contains(c) && g.map().dom().contains(c) && g.map()[c].succs@.contains(s) by {
                if exits@.contains(s) && !eb.contains(s) {
                    assert(t.contains(b));
                }
                if !blocks@.contains(s) && exists|c: u16| #[trigger] t.contains(c) && g.map().dom().contains(c)
                    && g.map()[c].succs@.contains(s) {
                    let c = choose|c: u16| #[trigger] t.contains(c) && g.map().dom().contains(c) && g.map()[c].succs@.contains(s);
                    if c != b {
                        assert(p.contains(c));
                    }
                }
            }
        }
        i = i + 1;
    }
    proof {
        assert(blocks@.subrange(0, i as int) =~= blocks@);
        assert forall|s: u16| exits@.to_set().contains(s) <==> exit_set(g.map(), blocks@).contains(s) by {
            assert(exits@.to_set().contains(s) == exits@.contains(s));
        }
        assert(exits@.to_set() =~= exit_set(g.map(), blocks@));
    }
    exits
}

/// Each natural loop with the blocks outside it that its blocks lead to.
pub fn identify_loops(natural_loops: &[NaturalLoop], blocks: &AddrMap<BasicBlock>) -> (r: Vec<IdentifiedLoop>)
    requires
        blocks.wf(),
    ensures
        r@.len() == natural_loops@.len(),
        forall|i: int| 0 <= i < r@.len() ==> {
            &&& #[trigger] r@[i].header == natural_loops@[i].header
            &&& r@[i].blocks@ == natural_loops@[i].blocks@
            &&& r@[i].exit_nodes@.no_duplicates()
            &&& r@[i].exit_nodes@.to_set() == exit_set(blocks.map(), natural_loops@[i].blocks@)
        },
{
    let mut out: Vec<IdentifiedLoop> = Vec::new();
    let mut i: usize = 0;
    while i < natural_loops.len()
        invariant
            i <= natural_loops@.len(),
            blocks.wf(),
            out@.len() == i,
            forall|k: int| 0 <= k < i ==> {
                &&& #[trigger] out@[k].header == natural_loops@[k].header
                &&& out@[k].blocks@ == natural_loops@[k].blocks@
                &&& out@[k].exit_nodes@.no_duplicates()
                &&& out@[k].exit_nodes@.to_set() == exit_set(blocks.map(), natural_loops@[k].blocks@)
            },
        decreases natural_loops@.len() - i,
    {
        let l = &natural_loops[i];
        let exits = loop_exits(blocks, &l.blocks);
        out.push(IdentifiedLoop { header: l.header, blocks: copy_addrs(&l.blocks), exit_nodes: exits });
        i = i + 1;
    }
    out
}

/// Finds if-else diamonds and simple ifs as the control-flow analysis does
/// (see `identify_conditionals` there), as identified conditionals.
pub fn identify_conditionals(blocks: &AddrMap<BasicBlock>) -> (r: Vec<IdentifiedConditional>)
    requires
        blocks.wf(),
    ensures
        r@ == cond_scan(blocks.map(), blocks.key_seq()).0.map_values(|c: Conditional| as_identified(c)),
{
    let found = crate::control_flow::identify_conditionals(blocks);
    let mut out: Vec<IdentifiedConditional> = Vec::new();
    let mut i: usize = 0;
    while i < found.len()
        invariant
            i <= found@.len(),
            out@ == found@.subrange(0, i as int).map_values(|c: Conditional| as_identified(c)),
        decreases found@.len() - i,
    {
        let c = found[i];
        let kind = match c.kind {
            ConditionalType::If => ConditionalKind::If,
            ConditionalType::IfElse => ConditionalKind::IfElse,
        };
        out.push(
            IdentifiedConditional {
                kind,
                condition_block: c.condition_block,
                true_branch_head: c.true_block,
                false_branch_head: c.false_block,
                join_block: c.join_block,
            },
        );
        proof {
            assert(found@.subrange(0, i + 1).map_values(|c: Conditional| as_identified(c)) =~= found@.subrange(
                0,
                i as int,
            ).map_values(|c: Conditional| as_identified(c)).push(as_identified(c)));
        }
        i = i + 1;
    }
    proof {
        assert(found@.subrange(0, i as int) =~= found@);
    }
    out
}

} // verus!
