use vstd::prelude::*;

use crate::access::Access;
use crate::compile::alloc_id;
use crate::ids::{LabelId, ValueId};
use crate::ir::{
    Constant, EFFECT_COMMAND, EFFECT_MEMORY, EFFECT_OBSERVABLE, EFFECT_SYNC, EFFECT_WRITE, IR, is_observable_spec,
    is_terminator_spec, operands_spec,
};
use crate::sync::{access_values_spec, lemma_filter_push, orders_writes, reversed};

verus! {

/// Where a block of a laid-out program stands: its label at `start`, its body after it and its
/// terminator at `terminator`.
#[derive(Debug, Clone, Copy, PartialEq, Eq, Structural)]
pub struct BlockAddress {
    pub label: LabelId,
    pub start: usize,
    pub terminator: usize,
}

impl BlockAddress {
    /// The positions the block takes up, from its label through its terminator.
    pub fn span(&self) -> (r: (usize, usize))
        requires
            self.terminator < usize::MAX,
        ensures
            r == (self.start, (self.terminator + 1) as usize),
    {
        (self.start, self.terminator + 1)
    }
}

/// `address` is a block of `nodes`: a label, a body of no terminators, a terminator.
pub open spec fn is_block_of(nodes: Seq<(ValueId, IR)>, address: BlockAddress) -> bool {
    &&& address.start < address.terminator < nodes.len()
    &&& nodes[address.start as int].1 == IR::Label { label: address.label }
    &&& is_terminator_spec(nodes[address.terminator as int].1)
    &&& forall|i: int| address.start < i < address.terminator ==> !is_terminator_spec(#[trigger] nodes[i].1)
}

/// A label at `s` and a terminator at `t` with neither a label nor a terminator between.
pub open spec fn closes_block(nodes: Seq<(ValueId, IR)>, s: int, t: int) -> bool {
    &&& 0 <= s < t < nodes.len()
    &&& nodes[s].1 is Label
    &&& is_terminator_spec(nodes[t].1)
    &&& forall|i: int| s < i < t ==> !(#[trigger] nodes[i].1 is Label) && !is_terminator_spec(nodes[i].1)
}

/// The blocks of `nodes`, each from a label through the first terminator after it.
pub fn blocks(nodes: &Vec<(ValueId, IR)>) -> (r: Vec<BlockAddress>)
    ensures
        forall|k: int| 0 <= k < r@.len() ==> is_block_of(nodes@, #[trigger] r@[k]),
        forall|k: int, l: int| 0 <= k < l < r@.len() ==> (#[trigger] r@[k]).terminator < (#[trigger] r@[l]).start,
        forall|s: int, t: int|
            #[trigger] closes_block(nodes@, s, t) ==> exists|k: int|
                0 <= k < r@.len() && (#[trigger] r@[k]).start == s && r@[k].terminator == t,
{
    let mut found: Vec<BlockAddress> = Vec::new();
    let mut open: Option<(LabelId, usize)> = None;
    let mut index: usize = 0;
    while index < nodes.len()
        invariant
            index <= nodes@.len(),
            forall|k: int| 0 <= k < found@.len() ==> is_block_of(nodes@, #[trigger] found@[k]),
            forall|k: int, l: int| 0 <= k < l < found@.len() ==> (#[trigger] found@[k]).terminator < (#[trigger] found@[l]).start,
            forall|k: int| 0 <= k < found@.len() ==> (#[trigger] found@[k]).terminator < index,
            open is Some ==> ({
                let (label, start) = open->0;
                &&& start < index
                &&& nodes@[start as int].1 == (IR::Label { label })
                &&& forall|i: int| start < i < index ==> !is_terminator_spec(#[trigger] nodes@[i].1)
                &&& forall|k: int| 0 <= k < found@.len() ==> (#[trigger] found@[k]).terminator < start
                &&& forall|i: int| start < i < index ==> !(#[trigger] nodes@[i].1 is Label)
            }),
            open is None ==> forall|s: int|
                0 <= s < index && (#[trigger] nodes@[s].1) is Label ==> exists|i: int|
                    s < i < index && (#[trigger] nodes@[i].1 is Label || is_terminator_spec(nodes@[i].1)),
            forall|s: int, t: int|
                t < index && #[trigger] closes_block(nodes@, s, t) ==> exists|k: int|
                    0 <= k < found@.len() && (#[trigger] found@[k]).start == s && found@[k].terminator == t,
        decreases nodes@.len() - index,
    {
        let ghost before = found@;
        let ghost was_open = open;
        let ir = &nodes[index].1;
        if let IR::Label { label } = ir {
            open = Some((*label, index));
        } else if ir.is_terminator() {
            if let Some((label, start)) = open {
                found.push(BlockAddress { label, start, terminator: index });
                open = None;
                proof {
                    assert(found@[found@.len() - 1].start == start && found@[found@.len() - 1].terminator == index);
                }
            }
        }
        proof {
            assert forall|s: int, t: int|
                t < index + 1 && #[trigger] closes_block(nodes@, s, t) implies exists|k: int|
                0 <= k < found@.len() && (#[trigger] found@[k]).start == s && found@[k].terminator == t by {
                if t < index {
                    let k = choose|k: int| 0 <= k < before.len() && (#[trigger] before[k]).start == s && before[k].terminator == t;
                    assert(found@[k] == before[k]);
                } else {
                    match was_open {
                        Some((label, start)) => {
                            if s < start {
                                assert(nodes@[start as int].1 is Label);
                            } else if s > start {
                                assert(nodes@[s].1 is Label);
                            }
                            assert(s == start);
                            assert(found@[found@.len() - 1].start == s);
                        },
                        None => {
                            let i = choose|i: int|
                                s < i < index && (#[trigger] nodes@[i].1 is Label || is_terminator_spec(nodes@[i].1));
                            assert(nodes@[i].1 is Label || is_terminator_spec(nodes@[i].1));
                        },
                    }
                }
            }
            if open is None {
                assert forall|s: int|
                    0 <= s < index + 1 && (#[trigger] nodes@[s].1) is Label implies exists|i: int|
                    s < i < index + 1 && (#[trigger] nodes@[i].1 is Label || is_terminator_spec(nodes@[i].1)) by {
                    if s < index {
                        if was_open is None {
                            let i = choose|i: int|
                                s < i < index && (#[trigger] nodes@[i].1 is Label || is_terminator_spec(nodes@[i].1));
                            assert(nodes@[i].1 is Label || is_terminator_spec(nodes@[i].1));
                        } else {
                            assert(nodes@[index as int].1 is Label || is_terminator_spec(nodes@[index as int].1));
                        }
                    }
                }
            }
        }
        index = index + 1;
    }
    found
}

/// Every value some instruction of `nodes` reads.
pub fn used_values(nodes: &Vec<(ValueId, IR)>) -> (r: Vec<ValueId>)
    ensures
        forall|k: int, j: int|
            0 <= k < nodes@.len() && 0 <= j < operands_spec(nodes@[k].1).len() ==> r@.contains(
                #[trigger] operands_spec(nodes@[k].1)[j],
            ),
{
    let mut used: Vec<ValueId> = Vec::new();
    let mut k: usize = 0;
    while k < nodes.len()
        invariant
            k <= nodes@.len(),
            forall|kk: int, j: int|
                0 <= kk < k && 0 <= j < operands_spec(nodes@[kk].1).len() ==> used@.contains(
                    #[trigger] operands_spec(nodes@[kk].1)[j],
                ),
        decreases nodes@.len() - k,
    {
        let ops = nodes[k].1.visit_operands();
        let ghost before = used@;
        let mut j: usize = 0;
        while j < ops.len()
            invariant
                j <= ops@.len(),
                ops@ == operands_spec(nodes@[k as int].1),
                used@.len() == before.len() + j,
                forall|q: int| 0 <= q < before.len() ==> used@[q] == before[q],
                forall|q: int| 0 <= q < j ==> used@[before.len() + q] == ops@[q],
            decreases ops@.len() - j,
        {
            used.push(ops[j]);
            j = j + 1;
        }
        proof {
            assert forall|kk: int, jj: int|
                0 <= kk < k + 1 && 0 <= jj < operands_spec(nodes@[kk].1).len() implies used@.contains(
                #[trigger] operands_spec(nodes@[kk].1)[jj],
            ) by {
                if kk < k {
                    let o = operands_spec(nodes@[kk].1)[jj];
                    assert(before.contains(o));
                    let w = choose|q: int| 0 <= q < before.len() && before[q] == o;
                    assert(used@[w] == o);
                } else {
                    assert(used@[before.len() + jj] == ops@[jj]);
                }
            }
        }
        k = k + 1;
    }
    used
}

/// The labels a selection merges into, which stay where they are.
pub fn pinned(nodes: &Vec<(ValueId, IR)>) -> (r: Vec<LabelId>)
    ensures
        forall|k: int| 0 <= k < nodes@.len() && (#[trigger] nodes@[k]).1 is SelectionMerge ==> r@.contains(
            nodes@[k].1->merge,
        ),
{
    let mut labels: Vec<LabelId> = Vec::new();
    let mut k: usize = 0;
    while k < nodes.len()
        invariant
            k <= nodes@.len(),
            forall|q: int| 0 <= q < k && (#[trigger] nodes@[q]).1 is SelectionMerge ==> labels@.contains(
                nodes@[q].1->merge,
            ),
        decreases nodes@.len() - k,
    {
        let ghost before = labels@;
        if let IR::SelectionMerge { merge } = &nodes[k].1 {
            labels.push(*merge);
            proof {
                assert(labels@[labels@.len() - 1] == *merge);
            }
        }
        proof {
            assert forall|q: int| 0 <= q < k + 1 && (#[trigger] nodes@[q]).1 is SelectionMerge implies labels@.contains(
                nodes@[q].1->merge,
            ) by {
                if q < k {
                    let merge = nodes@[q].1->merge;
                    let w = choose|i: int| 0 <= i < before.len() && before[i] == merge;
                    assert(labels@[w] == merge);
                }
            }
        }
        k = k + 1;
    }
    labels
}

fn contains_label(list: &Vec<LabelId>, label: LabelId) -> (r: bool)
    ensures
        r == list@.contains(label),
{
    let mut i: usize = 0;
    while i < list.len()
        invariant
            i <= list@.len(),
            forall|k: int| 0 <= k < i ==> list@[k] != label,
        decreases list@.len() - i,
    {
        if list[i] == label {
            return true;
        }
        i = i + 1;
    }
    false
}

fn contains_value(list: &Vec<ValueId>, id: ValueId) -> (r: bool)
    ensures
        r == list@.contains(id),
{
    let mut i: usize = 0;
    while i < list.len()
        invariant
            i <= list@.len(),
            forall|k: int| 0 <= k < i ==> list@[k] != id,
        decreases list@.len() - i,
    {
        if list[i] == id {
            return true;
        }
        i = i + 1;
    }
    false
}

/// The body of `block` does nothing that can be observed and defines nothing that is read.
pub open spec fn is_empty_spec(nodes: Seq<(ValueId, IR)>, block: BlockAddress, used: Seq<ValueId>) -> bool {
    forall|i: int|
        block.start < i < block.terminator ==> !is_observable_spec(#[trigger] nodes[i].1) && !used.contains(
            nodes[i].0,
        )
}

pub fn is_empty(nodes: &Vec<(ValueId, IR)>, block: &BlockAddress, used: &Vec<ValueId>) -> (r: bool)
    requires
        is_block_of(nodes@, *block),
    ensures
        r == is_empty_spec(nodes@, *block, used@),
{
    let mut i: usize = block.start + 1;
    while i < block.terminator
        invariant
            block.start < i <= block.terminator,
            is_block_of(nodes@, *block),
            forall|q: int| block.start < q < i ==> !is_observable_spec((#[trigger] nodes@[q]).1) && !used@.contains(
                nodes@[q].0,
            ),
        decreases block.terminator - i,
    {
        let removable = nodes[i].1.is_removable_when_unused();
        let read = contains_value(used, nodes[i].0);
        if !removable || read {
            return false;
        }
        assert(!is_observable_spec(nodes@[i as int].1) && !used@.contains(nodes@[i as int].0));
        i = i + 1;
    }
    true
}

/// The block's terminator branches to `label`.
pub open spec fn branches_to(ir: IR, label: LabelId) -> bool {
    match ir {
        IR::Branch { target } => target == label,
        IR::BranchConditional { true_label, false_label, .. } => true_label == label || false_label == label,
        _ => false,
    }
}

/// Whether a block's terminator branches to `label`.
pub open spec fn branch_pred(nodes: Seq<(ValueId, IR)>, label: LabelId) -> spec_fn(BlockAddress) -> bool {
    |b: BlockAddress| branches_to(nodes[b.terminator as int].1, label)
}

/// The labels of the blocks whose terminator branches to `label`, in block order.
pub fn predecessors_of(blocks: &Vec<BlockAddress>, nodes: &Vec<(ValueId, IR)>, label: LabelId) -> (r: Vec<LabelId>)
    requires
        forall|k: int| 0 <= k < blocks@.len() ==> is_block_of(nodes@, #[trigger] blocks@[k]),
    ensures
        r@ == blocks@.filter(branch_pred(nodes@, label)).map_values(|b: BlockAddress| b.label),
{
    let ghost pred = branch_pred(nodes@, label);
    let mut found: Vec<LabelId> = Vec::new();
    let mut k: usize = 0;
    while k < blocks.len()
        invariant
            k <= blocks@.len(),
            forall|q: int| 0 <= q < blocks@.len() ==> is_block_of(nodes@, #[trigger] blocks@[q]),
            found@ == blocks@.subrange(0, k as int).filter(pred).map_values(|b: BlockAddress| b.label),
            pred == branch_pred(nodes@, label),
        decreases blocks@.len() - k,
    {
        let block = blocks[k];
        let hit = match &nodes[block.terminator].1 {
            IR::Branch { target } => *target == label,
            IR::BranchConditional { true_label, false_label, .. } => *true_label == label || *false_label == label,
            _ => false,
        };
        proof {
            assert(blocks@.subrange(0, k + 1) =~= blocks@.subrange(0, k as int).push(block));
            lemma_filter_push(blocks@.subrange(0, k as int), block, pred);
            assert(hit == branches_to(nodes@[block.terminator as int].1, label));
            assert(pred(block) == branches_to(nodes@[block.terminator as int].1, label));
        }
        let ghost prior = found@;
        if hit {
            found.push(block.label);
        }
        proof {
            let f = blocks@.subrange(0, k as int).filter(pred);
            if hit {
                assert(f.push(block).map_values(|b: BlockAddress| b.label) =~= f.map_values(|b: BlockAddress| b.label).push(
                    block.label,
                ));
            }
        }
        k = k + 1;
    }
    proof {
        assert(blocks@.subrange(0, blocks@.len() as int) =~= blocks@);
    }
    found
}

/// `label`, with `from` taken to `to`.
pub open spec fn relabel(label: LabelId, from: LabelId, to: LabelId) -> LabelId {
    if label == from {
        to
    } else {
        label
    }
}

/// The incoming values merged so far, with `entry` added under its label taken from `from` to
/// `to`: kept once where its label is there with the same value already, `None` where it is
/// there with another.
pub open spec fn merge_step(
    acc: Option<Seq<(ValueId, LabelId)>>,
    entry: (ValueId, LabelId),
    from: LabelId,
    to: LabelId,
) -> Option<Seq<(ValueId, LabelId)>> {
    match acc {
        None => None,
        Some(m) => {
            let l = relabel(entry.1, from, to);
            if exists|q: int| 0 <= q < m.len() && (#[trigger] m[q]).1 == l {
                let q = choose|q: int|
                    0 <= q < m.len() && (#[trigger] m[q]).1 == l && forall|p: int| 0 <= p < q ==> (#[trigger] m[p]).1 != l;
                if m[q].0 != entry.0 {
                    None
                } else {
                    Some(m)
                }
            } else {
                Some(m.push((entry.0, l)))
            }
        },
    }
}

/// The incoming values of a phi merged, with `from` taken to `to`.
pub open spec fn merged_over(incoming: Seq<(ValueId, LabelId)>, from: LabelId, to: LabelId) -> Option<Seq<(ValueId, LabelId)>>
    decreases incoming.len(),
{
    if incoming.len() == 0 {
        Some(Seq::empty())
    } else {
        merge_step(merged_over(incoming.drop_last(), from, to), incoming.last(), from, to)
    }
}

/// Some value comes into the phi from `from`.
pub open spec fn reaches_from(incoming: Seq<(ValueId, LabelId)>, from: LabelId) -> bool {
    exists|k: int| 0 <= k < incoming.len() && (#[trigger] incoming[k]).1 == from
}

/// The phis among the first `n` of `nodes` that `from` comes into, by position, with their
/// incoming values merged; `None` where two values would come into one from the same block.
pub open spec fn phi_rewrites(nodes: Seq<(ValueId, IR)>, n: int, from: LabelId, to: LabelId) -> Option<Seq<(usize, Seq<(ValueId, LabelId)>)>>
    decreases n,
{
    if n <= 0 {
        Some(Seq::empty())
    } else {
        match phi_rewrites(nodes, n - 1, from, to) {
            None => None,
            Some(v) => match nodes[n - 1].1 {
                IR::Phi { incoming } => if reaches_from(incoming@, from) {
                    match merged_over(incoming@, from, to) {
                        None => None,
                        Some(m) => Some(v.push(((n - 1) as usize, m))),
                    }
                } else {
                    Some(v)
                },
                _ => Some(v),
            },
        }
    }
}

/// The rewrites with the incoming lists taken by their views.
pub open spec fn rewrite_views(v: Seq<(usize, Vec<(ValueId, LabelId)>)>) -> Seq<(usize, Seq<(ValueId, LabelId)>)> {
    v.map_values(|x: (usize, Vec<(ValueId, LabelId)>)| (x.0, x.1@))
}

proof fn lemma_merged_none(incoming: Seq<(ValueId, LabelId)>, k: int, from: LabelId, to: LabelId)
    requires
        0 <= k <= incoming.len(),
        merged_over(incoming.take(k), from, to) is None,
    ensures
        merged_over(incoming, from, to) is None,
    decreases incoming.len() - k,
{
    if k < incoming.len() {
        assert(incoming.take(k + 1).drop_last() =~= incoming.take(k));
        lemma_merged_none(incoming, k + 1, from, to);
    } else {
        assert(incoming.take(k) =~= incoming);
    }
}

proof fn lemma_rewrites_none(nodes: Seq<(ValueId, IR)>, n: int, m: int, from: LabelId, to: LabelId)
    requires
        0 <= n <= m,
        phi_rewrites(nodes, n, from, to) is None,
    ensures
        phi_rewrites(nodes, m, from, to) is None,
    decreases m - n,
{
    if n < m {
        lemma_rewrites_none(nodes, n + 1, m, from, to);
    }
}

/// The phis that take a value from `from`, rewritten to take it from `to`; `None` where a phi
/// would then take two different values from one block.
pub fn wire_phis(nodes: &Vec<(ValueId, IR)>, from: LabelId, to: LabelId) -> (r: Option<Vec<(usize, Vec<(ValueId, LabelId)>)>>)
    ensures
        r matches Some(v) ==> forall|k: int| 0 <= k < v@.len() ==> (#[trigger] v@[k]).0 < nodes@.len() && nodes@[v@[k].0 as int].1 is Phi,
        r is None <==> phi_rewrites(nodes@, nodes@.len() as int, from, to) is None,
        r matches Some(v) ==> phi_rewrites(nodes@, nodes@.len() as int, from, to) == Some(rewrite_views(v@)),
{
    let mut rewritten: Vec<(usize, Vec<(ValueId, LabelId)>)> = Vec::new();
    let mut index: usize = 0;
    while index < nodes.len()
        invariant
            index <= nodes@.len(),
            forall|k: int| 0 <= k < rewritten@.len() ==> (#[trigger] rewritten@[k]).0 < nodes@.len() && nodes@[rewritten@[k].0 as int].1 is Phi,
            phi_rewrites(nodes@, index as int, from, to) == Some(rewrite_views(rewritten@)),
        decreases nodes@.len() - index,
    {
        if let IR::Phi { incoming } = &nodes[index].1 {
            let mut reaches = false;
            let mut k: usize = 0;
            while k < incoming.len()
                invariant
                    k <= incoming@.len(),
                    reaches <==> exists|j: int| 0 <= j < k && (#[trigger] incoming@[j]).1 == from,
                decreases incoming@.len() - k,
            {
                if incoming[k].1 == from {
                    reaches = true;
                }
                k = k + 1;
            }
            if reaches {
                let mut merged: Vec<(ValueId, LabelId)> = Vec::with_capacity(incoming.len());
                let mut k: usize = 0;
                while k < incoming.len()
                    invariant
                        k <= incoming@.len(),
                        merged_over(incoming@.take(k as int), from, to) == Some(merged@),
                        phi_rewrites(nodes@, index as int, from, to) == Some(rewrite_views(rewritten@)),
                        reaches_from(incoming@, from),
                        index < nodes@.len(),
                        nodes@[index as int].1 == (IR::Phi { incoming: *incoming }),
                    decreases incoming@.len() - k,
                {
                    proof {
                        assert(incoming@.take(k + 1).drop_last() =~= incoming@.take(k as int));
                        assert(incoming@.take(k + 1).last() == incoming@[k as int]);
                    }
                    let (value, label) = incoming[k];
                    let label = if label == from { to } else { label };
                    let mut seen: Option<ValueId> = None;
                    let mut q: usize = 0;
                    while q < merged.len()
                        invariant
                            q <= merged@.len(),
                            seen is None ==> forall|p: int| 0 <= p < q ==> (#[trigger] merged@[p]).1 != label,
                            seen matches Some(v) ==> exists|w: int|
                                0 <= w < q && (#[trigger] merged@[w]).1 == label && merged@[w].0 == v && forall|p: int|
                                    0 <= p < w ==> (#[trigger] merged@[p]).1 != label,
                        decreases merged@.len() - q,
                    {
                        if merged[q].1 == label && seen.is_none() {
                            seen = Some(merged[q].0);
                        }
                        q = q + 1;
                    }
                    proof {
                        if let Some(v) = seen {
                            let w = choose|w: int|
                                0 <= w < q && (#[trigger] merged@[w]).1 == label && merged@[w].0 == v && forall|p: int|
                                    0 <= p < w ==> (#[trigger] merged@[p]).1 != label;
                            let c = choose|c: int|
                                0 <= c < merged@.len() && (#[trigger] merged@[c]).1 == label && forall|p: int|
                                    0 <= p < c ==> (#[trigger] merged@[p]).1 != label;
                            assert(c == w) by {
                                if c < w {
                                    assert(merged@[c].1 != label);
                                }
                                if w < c {
                                    assert(merged@[w].1 != label);
                                }
                            }
                        }
                    }
                    match seen {
                        Some(other) => {
                            if other != value {
                                proof {
                                    lemma_merged_none(incoming@, k + 1, from, to);
                                    lemma_rewrites_none(nodes@, index + 1, nodes@.len() as int, from, to);
                                }
                                return None;
                            }
                        },
                        None => {
                            merged.push((value, label));
                        },
                    }
                    k = k + 1;
                }
                proof {
                    assert(incoming@.take(k as int) =~= incoming@);
                }
                let ghost before = rewritten@;
                rewritten.push((index, merged));
                proof {
                    assert(rewrite_views(rewritten@) =~= rewrite_views(before).push((index, merged@)));
                }
            }
        }
        index = index + 1;
    }
    Some(rewritten)
}

/// Every id `nodes` lists is below `bound`.
pub open spec fn ids_below(nodes: Seq<(ValueId, IR)>, bound: int) -> bool {
    forall|k: int| 0 <= k < nodes.len() ==> (#[trigger] nodes[k]).0.0 < bound
}

/// How many conditional branches `nodes` holds.
pub open spec fn conditional_count(nodes: Seq<(ValueId, IR)>) -> nat
    decreases nodes.len(),
{
    if nodes.len() == 0 {
        0
    } else {
        conditional_count(nodes.drop_last()) + if nodes.last().1 is BranchConditional { 1nat } else { 0nat }
    }
}

proof fn lemma_conditional_count_update(s: Seq<(ValueId, IR)>, i: int, x: (ValueId, IR))
    requires
        0 <= i < s.len(),
    ensures
        conditional_count(s.update(i, x)) + (if s[i].1 is BranchConditional { 1int } else { 0int })
            == conditional_count(s) + (if x.1 is BranchConditional { 1int } else { 0int }),
    decreases s.len(),
{
    if i < s.len() - 1 {
        assert(s.update(i, x).drop_last() =~= s.drop_last().update(i, x));
        lemma_conditional_count_update(s.drop_last(), i, x);
    } else {
        assert(s.update(i, x).drop_last() =~= s.drop_last());
    }
}

proof fn lemma_conditional_count_remove(s: Seq<(ValueId, IR)>, i: int)
    requires
        0 <= i < s.len(),
    ensures
        conditional_count(s.remove(i)) + (if s[i].1 is BranchConditional { 1int } else { 0int }) == conditional_count(s),
    decreases s.len(),
{
    if i < s.len() - 1 {
        assert(s.remove(i).drop_last() =~= s.drop_last().remove(i));
        lemma_conditional_count_remove(s.drop_last(), i);
    } else {
        assert(s.remove(i) =~= s.drop_last());
    }
}

/// An instruction that does something besides shaping the control flow: not a label, a
/// merge, a phi or a terminator, and not one that can go where nothing uses it.
pub open spec fn beyond_control(ir: IR) -> bool {
    &&& is_observable_spec(ir)
    &&& !is_terminator_spec(ir)
    &&& !(ir is Label)
    &&& !(ir is SelectionMerge)
    &&& !(ir is Phi)
}

pub open spec fn beyond_control_node() -> spec_fn((ValueId, IR)) -> bool {
    |x: (ValueId, IR)| beyond_control(x.1)
}

/// Writes into images and image barriers do something beyond shaping the control flow.
pub proof fn lemma_orders_writes_beyond(ir: IR)
    requires
        orders_writes(ir),
    ensures
        beyond_control(ir),
{
    assert((EFFECT_WRITE | EFFECT_COMMAND) & EFFECT_OBSERVABLE != 0) by (bit_vector);
    assert((EFFECT_MEMORY | EFFECT_COMMAND) & EFFECT_OBSERVABLE != 0) by (bit_vector);
    assert((EFFECT_SYNC | EFFECT_COMMAND) & EFFECT_OBSERVABLE != 0) by (bit_vector);
}

/// Replacing an entry that a filter drops with another it drops leaves what it keeps.
pub proof fn lemma_filter_update<A>(s: Seq<A>, i: int, x: A, f: spec_fn(A) -> bool)
    requires
        0 <= i < s.len(),
        !f(s[i]),
        !f(x),
    ensures
        s.update(i, x).filter(f) == s.filter(f),
    decreases s.len(),
{
    reveal_with_fuel(Seq::filter, 1);
    if i < s.len() - 1 {
        assert(s.update(i, x).drop_last() =~= s.drop_last().update(i, x));
        lemma_filter_update(s.drop_last(), i, x, f);
    } else {
        assert(s.update(i, x).drop_last() =~= s.drop_last());
    }
}

/// Removing an entry that a filter drops leaves what it keeps.
pub proof fn lemma_filter_remove<A>(s: Seq<A>, i: int, f: spec_fn(A) -> bool)
    requires
        0 <= i < s.len(),
        !f(s[i]),
    ensures
        s.remove(i).filter(f) == s.filter(f),
    decreases s.len(),
{
    reveal_with_fuel(Seq::filter, 1);
    if i < s.len() - 1 {
        assert(s.remove(i).drop_last() =~= s.drop_last().remove(i));
        lemma_filter_remove(s.drop_last(), i, f);
    } else {
        assert(s.remove(i) =~= s.drop_last());
    }
}

/// Removes the positions from `start` up to `end`.
fn drain(nodes: &mut Vec<(ValueId, IR)>, start: usize, end: usize, Ghost(bound): Ghost<int>)
    requires
        start <= end <= old(nodes)@.len(),
        ids_below(old(nodes)@, bound),
    ensures
        final(nodes)@.len() == old(nodes)@.len() - (end - start),
        conditional_count(final(nodes)@) <= conditional_count(old(nodes)@),
        ids_below(final(nodes)@, bound),
        (forall|i: int| start <= i < end ==> !beyond_control((#[trigger] old(nodes)@[i]).1)) ==> final(nodes)@.filter(
            beyond_control_node(),
        ) == old(nodes)@.filter(beyond_control_node()),
{
    let ghost kept = forall|i: int| start <= i < end ==> !beyond_control((#[trigger] old(nodes)@[i]).1);
    let mut k: usize = start;
    while k < end
        invariant
            start <= k <= end,
            nodes@.len() == old(nodes)@.len() - (k - start),
            end <= old(nodes)@.len(),
            conditional_count(nodes@) <= conditional_count(old(nodes)@),
            ids_below(nodes@, bound),
            forall|q: int| 0 <= q < start ==> #[trigger] nodes@[q] == old(nodes)@[q],
            forall|q: int| start <= q < nodes@.len() ==> #[trigger] nodes@[q] == old(nodes)@[q + (k - start)],
            kept == forall|i: int| start <= i < end ==> !beyond_control((#[trigger] old(nodes)@[i]).1),
            kept ==> nodes@.filter(beyond_control_node()) == old(nodes)@.filter(beyond_control_node()),
        decreases end - k,
    {
        let ghost before = nodes@;
        nodes.remove(start);
        proof {
            if kept {
                assert(before[start as int] == old(nodes)@[start + (k - start)]);
                assert(!beyond_control(old(nodes)@[k as int].1));
                lemma_filter_remove(before, start as int, beyond_control_node());
            }
            assert forall|q: int| 0 <= q < start implies #[trigger] nodes@[q] == old(nodes)@[q] by {
                assert(nodes@[q] == before[q]);
            }
            assert forall|q: int| start <= q < nodes@.len() implies #[trigger] nodes@[q] == old(nodes)@[q + (k + 1 - start)] by {
                assert(nodes@[q] == before[q + 1]);
            }
            lemma_conditional_count_remove(before, start as int);
            assert forall|q: int| 0 <= q < nodes@.len() implies (#[trigger] nodes@[q]).0.0 < bound by {
                if q < start {
                    assert(nodes@[q] == before[q]);
                } else {
                    assert(nodes@[q] == before[q + 1]);
                }
            }
        }
        k = k + 1;
    }
}

/// Removes one block that does nothing but branch on, wiring its one predecessor straight to
/// where it branched and the phis there to take what came from it from the predecessor
/// instead. The entry block, a block a selection merges into and a block that branches to
/// itself stay. Whether a block was removed is what comes back.
pub fn wire_empty_block(nodes: &mut Vec<(ValueId, IR)>, Ghost(bound): Ghost<int>) -> (r: bool)
    requires
        ids_below(old(nodes)@, bound),
    ensures
        ids_below(final(nodes)@, bound),
        !r ==> final(nodes)@ == old(nodes)@,
        r ==> final(nodes)@.len() < old(nodes)@.len(),
        conditional_count(final(nodes)@) <= conditional_count(old(nodes)@),
        final(nodes)@.filter(beyond_control_node()) == old(nodes)@.filter(beyond_control_node()),
{
    let found = blocks(nodes);
    let used = used_values(nodes);
    let pinned = pinned(nodes);
    let mut bi: usize = 1;
    while bi < found.len()
        invariant
            nodes@ == old(nodes)@,
            ids_below(nodes@, bound),
            forall|k: int| 0 <= k < found@.len() ==> is_block_of(nodes@, #[trigger] found@[k]),
        decreases found@.len() - bi,
    {
        let block = found[bi];
        bi = bi + 1;
        let target = match &nodes[block.terminator].1 {
            IR::Branch { target } => *target,
            _ => continue,
        };
        if target == block.label || contains_label(&pinned, block.label) || !is_empty(nodes, &block, &used) {
            continue;
        }
        let preds = predecessors_of(&found, nodes, block.label);
        if preds.len() != 1 {
            continue;
        }
        let predecessor = preds[0];
        let phis = match wire_phis(nodes, block.label, predecessor) {
            Some(phis) => phis,
            None => continue,
        };
        let mut from: Option<BlockAddress> = None;
        let mut q: usize = 0;
        while q < found.len()
            invariant
                q <= found@.len(),
                from matches Some(f) ==> is_block_of(nodes@, f),
                forall|k: int| 0 <= k < found@.len() ==> is_block_of(nodes@, #[trigger] found@[k]),
            decreases found@.len() - q,
        {
            if from.is_none() && found[q].label == predecessor {
                from = Some(found[q]);
            }
            q = q + 1;
        }
        let from = match from {
            Some(from) => from,
            None => continue,
        };
        let at = from.terminator;
        let (edge_id, rewired) = match &nodes[at] {
            (id, IR::Branch { .. }) => (*id, IR::Branch { target }),
            (id, IR::BranchConditional { condition, true_label, false_label }) => {
                let t = if *true_label == block.label { target } else { *true_label };
                let f = if *false_label == block.label { target } else { *false_label };
                (*id, IR::BranchConditional { condition: *condition, true_label: t, false_label: f })
            },
            _ => continue,
        };
        let ghost before = nodes@;
        proof {
            assert(block == found@[bi - 1]);
            assert(is_block_of(before, block));
            assert(is_block_of(before, from));
            assert forall|i: int| block.start <= i <= block.terminator implies !beyond_control((#[trigger] before[i]).1) by {
                if block.start < i < block.terminator {
                    assert(!is_observable_spec(before[i].1));
                }
            }
        }
        nodes.set(at, (edge_id, rewired));
        proof {
            lemma_filter_update(before, at as int, (edge_id, rewired), beyond_control_node());
            lemma_conditional_count_update(before, at as int, (edge_id, rewired));
            assert forall|k: int| 0 <= k < phis@.len() implies (#[trigger] phis@[k]).0 < nodes@.len() && nodes@[phis@[k].0 as int].1 is Phi by {
                assert(before[phis@[k].0 as int].1 is Phi);
            }
            assert forall|i: int| 0 <= i < nodes@.len() implies #[trigger] nodes@[i] == old(nodes)@[i] || !beyond_control(nodes@[i].1) by {
                if i != at {
                    assert(nodes@[i] == before[i]);
                }
            }
            assert(edge_id == before[at as int].0);
            assert forall|q: int| 0 <= q < nodes@.len() implies (#[trigger] nodes@[q]).0.0 < bound by {
                if q != at {
                    assert(nodes@[q] == before[q]);
                }
            }
        }
        let mut phis = phis;
        while phis.len() > 0
            invariant
                nodes@.len() == old(nodes)@.len(),
                conditional_count(nodes@) <= conditional_count(old(nodes)@),
                forall|k: int| 0 <= k < phis@.len() ==> (#[trigger] phis@[k]).0 < nodes@.len() && nodes@[phis@[k].0 as int].1 is Phi,
                ids_below(nodes@, bound),
                nodes@.filter(beyond_control_node()) == old(nodes)@.filter(beyond_control_node()),
                forall|i: int| 0 <= i < nodes@.len() ==> #[trigger] nodes@[i] == old(nodes)@[i] || !beyond_control(nodes@[i].1),
                block.start <= block.terminator < nodes@.len(),
                forall|i: int| block.start <= i <= block.terminator ==> !beyond_control((#[trigger] old(nodes)@[i]).1),
            decreases phis@.len(),
        {
            let (index, incoming) = phis.pop().unwrap();
            let id = nodes[index].0;
            let ghost prior = nodes@;
            assert(prior[index as int].0.0 < bound);
            nodes.set(index, (id, IR::Phi { incoming }));
            proof {
                lemma_filter_update(prior, index as int, (id, IR::Phi { incoming }), beyond_control_node());
                assert forall|k: int| 0 <= k < phis@.len() implies (#[trigger] phis@[k]).0 < nodes@.len() && nodes@[phis@[k].0 as int].1 is Phi by {
                    if phis@[k].0 != index {
                        assert(nodes@[phis@[k].0 as int] == prior[phis@[k].0 as int]);
                    }
                }
                assert forall|i: int| 0 <= i < nodes@.len() implies #[trigger] nodes@[i] == old(nodes)@[i] || !beyond_control(nodes@[i].1) by {
                    if i != index {
                        assert(nodes@[i] == prior[i]);
                    }
                }
                lemma_conditional_count_update(prior, index as int, (id, IR::Phi { incoming }));
                assert forall|q: int| 0 <= q < nodes@.len() implies (#[trigger] nodes@[q]).0.0 < bound by {
                    if q != index {
                        assert(nodes@[q] == prior[q]);
                    }
                }
            }
        }
        let len = nodes.len();
        proof {
            assert forall|i: int| block.start <= i < block.terminator + 1 implies !beyond_control((#[trigger] nodes@[i]).1) by {
                assert(nodes@[i] == old(nodes)@[i] || !beyond_control(nodes@[i].1));
            }
        }
        drain(nodes, block.start, block.terminator + 1, Ghost(bound));
        return true;
    }
    false
}

/// A conditional branch whose arms go to the same block.
pub open spec fn one_target(ir: IR) -> bool {
    ir matches IR::BranchConditional { true_label, false_label, .. } && true_label == false_label
}

/// `nodes` with the conditional branch at `i` turned into a plain branch to its target, and
/// the merge right before it, where there is one, dropped.
pub open spec fn folded_at(nodes: Seq<(ValueId, IR)>, i: int) -> Seq<(ValueId, IR)> {
    let target = nodes[i].1->BranchConditional_true_label;
    let plain = nodes.update(i, (nodes[i].0, IR::Branch { target }));
    if i > 0 && nodes[i - 1].1 is SelectionMerge {
        plain.remove(i - 1)
    } else {
        plain
    }
}

/// Turns the first conditional branch whose arms go to the same block into a plain branch
/// there, dropping the merge it declared along with it. Whether one was found is what comes
/// back.
pub fn fold_equal_targets(nodes: &mut Vec<(ValueId, IR)>, Ghost(bound): Ghost<int>) -> (r: bool)
    requires
        ids_below(old(nodes)@, bound),
    ensures
        ids_below(final(nodes)@, bound),
        !r ==> final(nodes)@ == old(nodes)@,
        r ==> final(nodes)@.len() <= old(nodes)@.len(),
        r ==> conditional_count(final(nodes)@) < conditional_count(old(nodes)@),
        !r <==> forall|k: int| 0 <= k < old(nodes)@.len() ==> !one_target(#[trigger] old(nodes)@[k].1),
        r ==> exists|i: int|
            0 <= i < old(nodes)@.len() && one_target(#[trigger] old(nodes)@[i].1) && (forall|k: int|
                0 <= k < i ==> !one_target(#[trigger] old(nodes)@[k].1)) && final(nodes)@ == folded_at(old(nodes)@, i),
{
    let mut index: usize = 0;
    while index < nodes.len()
        invariant
            index <= nodes@.len(),
            nodes@ == old(nodes)@,
            ids_below(nodes@, bound),
            forall|k: int| 0 <= k < index ==> !one_target(#[trigger] old(nodes)@[k].1),
        decreases nodes@.len() - index,
    {
        let found = match &nodes[index].1 {
            IR::BranchConditional { true_label, false_label, .. } => if *true_label == *false_label {
                Some(*true_label)
            } else {
                None
            },
            _ => None,
        };
        if let Some(target) = found {
            let id = nodes[index].0;
            let ghost before = nodes@;
            let ghost plain = before.update(index as int, (id, IR::Branch { target }));
            assert(one_target(before[index as int].1));
            nodes.set(index, (id, IR::Branch { target }));
            proof {
                lemma_conditional_count_update(before, index as int, (id, IR::Branch { target }));
                assert forall|q: int| 0 <= q < nodes@.len() implies (#[trigger] nodes@[q]).0.0 < bound by {
                    if q != index {
                        assert(nodes@[q] == before[q]);
                    }
                }
            }
            if index > 0 {
                if let IR::SelectionMerge { .. } = &nodes[index - 1].1 {
                    let ghost prior = nodes@;
                    nodes.remove(index - 1);
                    proof {
                        lemma_conditional_count_remove(prior, index - 1);
                        assert forall|q: int| 0 <= q < nodes@.len() implies (#[trigger] nodes@[q]).0.0 < bound by {
                            if q < index - 1 {
                                assert(nodes@[q] == prior[q]);
                            } else {
                                assert(nodes@[q] == prior[q + 1]);
                            }
                        }
                    }
                }
            }
            proof {
                let i = index as int;
                assert(before == old(nodes)@);
                assert(one_target(old(nodes)@[i].1));
                if i > 0 && old(nodes)@[i - 1].1 is SelectionMerge {
                    assert(nodes@ =~= plain.remove(i - 1));
                } else {
                    assert(nodes@ =~= plain);
                }
                assert(nodes@ == folded_at(old(nodes)@, i));
            }
            return true;
        }
        index = index + 1;
    }
    false
}

/// Removes empty blocks and folds conditional branches with one target until neither
/// changes anything. Every instruction that does more than shape the control flow stays, in
/// its order.
pub fn simplify_cfg(input: Vec<(ValueId, IR)>, Ghost(bound): Ghost<int>) -> (r: Vec<(ValueId, IR)>)
    requires
        ids_below(input@, bound),
    ensures
        r@.len() <= input@.len(),
        ids_below(r@, bound),
        forall|k: int| 0 <= k < r@.len() ==> !one_target(#[trigger] r@[k].1),
        r@.filter(beyond_control_node()) == input@.filter(beyond_control_node()),
{
    let mut nodes = input;
    let ghost start = nodes@.len();
    loop
        invariant
            nodes@.len() <= start,
            start == input@.len(),
            ids_below(nodes@, bound),
            nodes@.filter(beyond_control_node()) == input@.filter(beyond_control_node()),
        decreases nodes@.len() + conditional_count(nodes@),
    {
        let wired = wire_empty_block(&mut nodes, Ghost(bound));
        let ghost mid = nodes@;
        let folded = fold_equal_targets(&mut nodes, Ghost(bound));
        proof {
            if folded {
                let i = choose|i: int|
                    0 <= i < mid.len() && one_target(#[trigger] mid[i].1) && (forall|k: int|
                        0 <= k < i ==> !one_target(#[trigger] mid[k].1)) && nodes@ == folded_at(mid, i);
                let plain = mid.update(i, (mid[i].0, IR::Branch { target: mid[i].1->BranchConditional_true_label }));
                lemma_filter_update(mid, i, plain[i], beyond_control_node());
                if i > 0 && mid[i - 1].1 is SelectionMerge {
                    assert(plain[i - 1] == mid[i - 1]);
                    lemma_filter_remove(plain, i - 1, beyond_control_node());
                }
            }
        }
        if !wired && !folded {
            return nodes;
        }
    }
}

/// `nodes` holds an access constant for `bits` under `id`.
pub open spec fn holds_access_bits(nodes: Seq<(ValueId, IR)>, id: ValueId, bits: u32) -> bool {
    exists|j: int| 0 <= j < nodes.len() && (#[trigger] nodes[j]).0 == id && nodes[j].1 == IR::Constant(
        Constant::Access(Access(bits)),
    )
}

/// The access bits of every access constant among `nodes`, by id.
pub fn access_constants(nodes: &Vec<(ValueId, IR)>) -> (r: Vec<(ValueId, u32)>)
    ensures
        r@ == access_values_spec(nodes@),
        forall|k: int| 0 <= k < r@.len() ==> #[trigger] holds_access_bits(nodes@, r@[k].0, r@[k].1),
{
    let mut values: Vec<(ValueId, u32)> = Vec::new();
    let mut i: usize = 0;
    while i < nodes.len()
        invariant
            i <= nodes@.len(),
            values@ == access_values_spec(nodes@.take(i as int)),
            forall|k: int| 0 <= k < values@.len() ==> #[trigger] holds_access_bits(nodes@, values@[k].0, values@[k].1),
        decreases nodes@.len() - i,
    {
        proof {
            assert(nodes@.take(i + 1).drop_last() =~= nodes@.take(i as int));
        }
        if let IR::Constant(Constant::Access(a)) = &nodes[i].1 {
            values.push((nodes[i].0, a.0));
            proof {
                assert(nodes@[i as int].0 == values@[values@.len() - 1].0);
                assert(holds_access_bits(nodes@, values@[values@.len() - 1].0, values@[values@.len() - 1].1));
            }
        }
        i = i + 1;
    }
    proof {
        assert(nodes@.take(i as int) =~= nodes@);
    }
    values
}

/// Nothing between `a` and `b` but memory barriers, image barriers and what is not observable.
pub open spec fn quiet_between(nodes: Seq<(ValueId, IR)>, a: int, b: int) -> bool {
    forall|i: int| a < i < b ==> !breaks_run(#[trigger] nodes[i].1)
}

/// An instruction that ends a run of memory barriers: an observable one that is no barrier.
pub open spec fn breaks_run(ir: IR) -> bool {
    !(ir is MemoryBarrier) && !(ir is ImageBarrier) && is_observable_spec(ir)
}

/// `runs` holds both `a` and `b` in one run.
pub open spec fn in_one_run(runs: Seq<Vec<usize>>, a: int, b: int) -> bool {
    exists|q: int, j: int, l: int|
        0 <= q < runs.len() && 0 <= j < runs[q]@.len() && 0 <= l < runs[q]@.len() && #[trigger] runs[q]@[j] == a
            && #[trigger] runs[q]@[l] == b
}

/// The runs of two or more memory barriers with nothing observable between them but image
/// barriers, by position.
pub fn barrier_runs(nodes: &Vec<(ValueId, IR)>) -> (r: Vec<Vec<usize>>)
    ensures
        forall|q: int, k: int| 0 <= q < r@.len() && 0 <= k < r@[q]@.len() ==> (#[trigger] r@[q]@[k]) < nodes@.len(),
        forall|q: int| 0 <= q < r@.len() ==> (#[trigger] r@[q])@.len() >= 2,
        forall|q: int, k: int| 0 <= q < r@.len() && 0 <= k < r@[q]@.len() ==> nodes@[(#[trigger] r@[q]@[k]) as int].1 is MemoryBarrier,
        forall|a: int, b: int|
            0 <= a < b < nodes@.len() && (#[trigger] nodes@[a]).1 is MemoryBarrier && (#[trigger] nodes@[b]).1 is MemoryBarrier
                && quiet_between(nodes@, a, b) ==> in_one_run(r@, a, b),
{
    let mut runs: Vec<Vec<usize>> = Vec::new();
    let mut run: Vec<usize> = Vec::new();
    let ghost mut seg: int = 0;
    let mut index: usize = 0;
    while index < nodes.len()
        invariant
            index <= nodes@.len(),
            0 <= seg <= index,
            seg > 0 ==> breaks_run(nodes@[seg - 1].1),
            forall|i: int| seg <= i < index ==> !breaks_run(#[trigger] nodes@[i].1),
            forall|k: int| 0 <= k < run@.len() ==> seg <= (#[trigger] run@[k]) < index && nodes@[run@[k] as int].1 is MemoryBarrier,
            forall|p: int| seg <= p < index && (#[trigger] nodes@[p]).1 is MemoryBarrier ==> run@.contains(p as usize),
            forall|q: int, k: int| 0 <= q < runs@.len() && 0 <= k < runs@[q]@.len() ==> (#[trigger] runs@[q]@[k]) < nodes@.len(),
            forall|q: int| 0 <= q < runs@.len() ==> (#[trigger] runs@[q])@.len() >= 2,
            forall|q: int, k: int| 0 <= q < runs@.len() && 0 <= k < runs@[q]@.len() ==> nodes@[(#[trigger] runs@[q]@[k]) as int].1 is MemoryBarrier,
            forall|a: int, b: int|
                0 <= a < b < seg && (#[trigger] nodes@[a]).1 is MemoryBarrier && (#[trigger] nodes@[b]).1 is MemoryBarrier
                    && quiet_between(nodes@, a, b) ==> in_one_run(runs@, a, b),
        decreases nodes@.len() - index,
    {
        let ir = &nodes[index].1;
        let ghost runs_before = runs@;
        let ghost run_before = run@;
        match ir {
            IR::MemoryBarrier { .. } => {
                run.push(index);
                proof {
                    assert forall|p: int| seg <= p < index + 1 && (#[trigger] nodes@[p]).1 is MemoryBarrier implies run@.contains(p as usize) by {
                        if p < index {
                            let w = choose|w: int| 0 <= w < run_before.len() && run_before[w] == p as usize;
                            assert(run@[w] == run_before[w]);
                        } else {
                            assert(run@[run@.len() - 1] == index);
                        }
                    }
                }
            },
            IR::ImageBarrier { .. } => {},
            _ => {
                if !ir.is_removable_when_unused() {
                    if run.len() > 1 {
                        runs.push(run);
                        proof {
                            assert forall|q: int, k: int| 0 <= q < runs@.len() && 0 <= k < runs@[q]@.len() implies (#[trigger] runs@[q]@[k]) < nodes@.len() by {
                                if q < runs_before.len() {
                                    assert(runs@[q] == runs_before[q]);
                                }
                            }
                            assert forall|q: int| 0 <= q < runs@.len() implies (#[trigger] runs@[q])@.len() >= 2 by {
                                if q < runs_before.len() {
                                    assert(runs@[q] == runs_before[q]);
                                }
                            }
                            assert forall|q: int, k: int| 0 <= q < runs@.len() && 0 <= k < runs@[q]@.len() implies nodes@[(#[trigger] runs@[q]@[k]) as int].1 is MemoryBarrier by {
                                if q < runs_before.len() {
                                    assert(runs@[q] == runs_before[q]);
                                }
                            }
                        }
                    }
                    proof {
                        assert(breaks_run(nodes@[index as int].1));
                        assert forall|a: int, b: int|
                            0 <= a < b < index + 1 && (#[trigger] nodes@[a]).1 is MemoryBarrier && (#[trigger] nodes@[b]).1 is MemoryBarrier
                                && quiet_between(nodes@, a, b) implies in_one_run(runs@, a, b) by {
                            if b < seg {
                                let (q, j, l) = choose|q: int, j: int, l: int|
                                    0 <= q < runs_before.len() && 0 <= j < runs_before[q]@.len() && 0 <= l < runs_before[q]@.len()
                                        && #[trigger] runs_before[q]@[j] == a && #[trigger] runs_before[q]@[l] == b;
                                assert(runs@[q] == runs_before[q]);
                                assert(runs@[q]@[j] == a && runs@[q]@[l] == b);
                            } else if a < seg {
                                assert(!breaks_run(nodes@[seg - 1].1));
                            } else {
                                assert(b != index);
                                let j = choose|j: int| 0 <= j < run_before.len() && run_before[j] == a as usize;
                                let l = choose|l: int| 0 <= l < run_before.len() && run_before[l] == b as usize;
                                assert(j != l);
                                assert(run_before.len() > 1);
                                let q = runs_before.len() as int;
                                assert(runs@[q]@ == run_before);
                                assert(runs@[q]@[j] == a && runs@[q]@[l] == b);
                            }
                        }
                    }
                    run = Vec::new();
                    proof {
                        seg = index + 1;
                    }
                }
            },
        }
        index = index + 1;
    }
    let ghost before = runs@;
    let ghost last_run = run@;
    if run.len() > 1 {
        runs.push(run);
        proof {
            assert forall|q: int, k: int| 0 <= q < runs@.len() && 0 <= k < runs@[q]@.len() implies (#[trigger] runs@[q]@[k]) < nodes@.len() by {
                if q < before.len() {
                    assert(runs@[q] == before[q]);
                }
            }
            assert forall|q: int| 0 <= q < runs@.len() implies (#[trigger] runs@[q])@.len() >= 2 by {
                if q < before.len() {
                    assert(runs@[q] == before[q]);
                }
            }
            assert forall|q: int, k: int| 0 <= q < runs@.len() && 0 <= k < runs@[q]@.len() implies nodes@[(#[trigger] runs@[q]@[k]) as int].1 is MemoryBarrier by {
                if q < before.len() {
                    assert(runs@[q] == before[q]);
                }
            }
        }
    }
    proof {
        assert forall|a: int, b: int|
            0 <= a < b < nodes@.len() && (#[trigger] nodes@[a]).1 is MemoryBarrier && (#[trigger] nodes@[b]).1 is MemoryBarrier
                && quiet_between(nodes@, a, b) implies in_one_run(runs@, a, b) by {
            if b < seg {
                let (q, j, l) = choose|q: int, j: int, l: int|
                    0 <= q < before.len() && 0 <= j < before[q]@.len() && 0 <= l < before[q]@.len()
                        && #[trigger] before[q]@[j] == a && #[trigger] before[q]@[l] == b;
                assert(runs@[q] == before[q]);
                assert(runs@[q]@[j] == a && runs@[q]@[l] == b);
            } else if a < seg {
                assert(!breaks_run(nodes@[seg - 1].1));
            } else {
                let j = choose|j: int| 0 <= j < last_run.len() && last_run[j] == a as usize;
                let l = choose|l: int| 0 <= l < last_run.len() && last_run[l] == b as usize;
                assert(j != l);
                assert(last_run.len() > 1);
                let q = before.len() as int;
                assert(runs@[q]@ == last_run);
                assert(runs@[q]@[j] == a && runs@[q]@[l] == b);
            }
        }
    }
    runs
}

/// A memory barrier that stays, at `at`, waiting for `src` before `dst`: the union of the
/// barriers of its run folded into it.
#[derive(Debug, Clone, Copy, PartialEq, Eq, Structural)]
pub struct Folded {
    pub at: usize,
    pub src: u32,
    pub dst: u32,
}

fn lookup_bits(values: &Vec<(ValueId, u32)>, id: ValueId) -> (r: Option<u32>)
    ensures
        r matches Some(bits) ==> exists|k: int|
            0 <= k < values@.len() && (#[trigger] values@[k]) == (id, bits) && forall|l: int| 0 <= l < k ==> (#[trigger] values@[l]).0 != id,
        r is None ==> forall|k: int| 0 <= k < values@.len() ==> (#[trigger] values@[k]).0 != id,
{
    let mut i: usize = 0;
    while i < values.len()
        invariant
            i <= values@.len(),
            forall|l: int| 0 <= l < i ==> (#[trigger] values@[l]).0 != id,
        decreases values@.len() - i,
    {
        if values[i].0 == id {
            proof {
                assert(values@[i as int] == (id, values@[i as int].1));
            }
            return Some(values[i].1);
        }
        i = i + 1;
    }
    None
}

/// The bits `values` lists first for `id`.
pub open spec fn first_bits(values: Seq<(ValueId, u32)>, id: ValueId) -> Option<u32> {
    if exists|k: int| 0 <= k < values.len() && (#[trigger] values[k]).0 == id {
        let k = choose|k: int|
            0 <= k < values.len() && (#[trigger] values[k]).0 == id && forall|l: int| 0 <= l < k ==> (#[trigger] values[l]).0 != id;
        Some(values[k].1)
    } else {
        None
    }
}

/// A kept barrier a barrier from `src` to `dst` folds into: one sharing its source or its
/// destination.
pub open spec fn folds_into(f: Folded, src: u32, dst: u32) -> bool {
    f.src == src || f.dst == dst
}

/// What folding the barrier at `at` does to the barriers kept from position `first` on and to
/// those dropped: merged into the first kept one it folds into, and dropped; kept where none
/// is; left alone where it is no memory barrier or names no access constant.
#[verifier::opaque]
pub open spec fn fold_step(
    nodes: Seq<(ValueId, IR)>,
    accesses: Seq<(ValueId, u32)>,
    first: int,
    state: (Seq<Folded>, Seq<usize>),
    at: usize,
) -> (Seq<Folded>, Seq<usize>) {
    match nodes[at as int].1 {
        IR::MemoryBarrier { src_access, dst_access } => match (first_bits(accesses, src_access), first_bits(accesses, dst_access)) {
            (Some(src), Some(dst)) => {
                let kept = state.0;
                if exists|m: int| first <= m < kept.len() && folds_into(#[trigger] kept[m], src, dst) {
                    let m = choose|m: int|
                        first <= m < kept.len() && folds_into(#[trigger] kept[m], src, dst) && forall|q: int|
                            first <= q < m ==> !folds_into(#[trigger] kept[q], src, dst);
                    (
                        kept.update(m, Folded { at: kept[m].at, src: kept[m].src | src, dst: kept[m].dst | dst }),
                        state.1.push(at),
                    )
                } else {
                    (kept.push(Folded { at, src, dst }), state.1)
                }
            },
            _ => state,
        },
        _ => state,
    }
}

/// Folding each barrier of `run` in order.
pub open spec fn fold_over(
    nodes: Seq<(ValueId, IR)>,
    accesses: Seq<(ValueId, u32)>,
    first: int,
    state: (Seq<Folded>, Seq<usize>),
    run: Seq<usize>,
) -> (Seq<Folded>, Seq<usize>)
    decreases run.len(),
{
    if run.len() == 0 {
        state
    } else {
        fold_step(nodes, accesses, first, fold_over(nodes, accesses, first, state, run.drop_last()), run.last())
    }
}

/// The source and destination bits of the memory barrier at `at`, where both of its accesses
/// name an access constant.
pub open spec fn barrier_bits(nodes: Seq<(ValueId, IR)>, accesses: Seq<(ValueId, u32)>, at: usize) -> Option<(u32, u32)> {
    match nodes[at as int].1 {
        IR::MemoryBarrier { src_access, dst_access } => match (first_bits(accesses, src_access), first_bits(accesses, dst_access)) {
            (Some(src), Some(dst)) => Some((src, dst)),
            _ => None,
        },
        _ => None,
    }
}

/// One of the barriers kept from position `first` on waits on at least `src` and makes at
/// least `dst` wait.
pub open spec fn covers(kept: Seq<Folded>, first: int, src: u32, dst: u32) -> bool {
    exists|m: int| first <= m < kept.len() && (#[trigger] kept[m]).src & src == src && kept[m].dst & dst == dst
}

/// `after` keeps every barrier of `before` where it was, waiting on at least what it waited on
/// and making at least what it made wait.
pub open spec fn widens(before: Seq<Folded>, after: Seq<Folded>) -> bool {
    &&& after.len() >= before.len()
    &&& forall|m: int|
        0 <= m < before.len() ==> (#[trigger] after[m]).src & before[m].src == before[m].src && after[m].dst
            & before[m].dst == before[m].dst
}

proof fn lemma_bits_trans(x: u32, y: u32, z: u32)
    by (bit_vector)
    requires
        x & y == y,
        y & z == z,
    ensures
        x & z == z,
{
}

proof fn lemma_bits_or(x: u32, y: u32)
    by (bit_vector)
    ensures
        (x | y) & x == x,
        (x | y) & y == y,
        x & x == x,
{
}

proof fn lemma_covers_widened(before: Seq<Folded>, after: Seq<Folded>, first: int, src: u32, dst: u32)
    requires
        0 <= first,
        covers(before, first, src, dst),
        widens(before, after),
    ensures
        covers(after, first, src, dst),
{
    let m = choose|m: int| first <= m < before.len() && (#[trigger] before[m]).src & src == src && before[m].dst & dst == dst;
    lemma_bits_trans(after[m].src, before[m].src, src);
    lemma_bits_trans(after[m].dst, before[m].dst, dst);
    assert(after[m].src & src == src && after[m].dst & dst == dst);
}

proof fn lemma_widens_trans(a: Seq<Folded>, b: Seq<Folded>, c: Seq<Folded>)
    requires
        widens(a, b),
        widens(b, c),
    ensures
        widens(a, c),
{
    assert forall|m: int| 0 <= m < a.len() implies (#[trigger] c[m]).src & a[m].src == a[m].src && c[m].dst & a[m].dst
        == a[m].dst by {
        assert(b[m].src & a[m].src == a[m].src);
        lemma_bits_trans(c[m].src, b[m].src, a[m].src);
        lemma_bits_trans(c[m].dst, b[m].dst, a[m].dst);
    }
}

proof fn lemma_widens_refl(a: Seq<Folded>)
    ensures
        widens(a, a),
{
    assert forall|m: int| 0 <= m < a.len() implies (#[trigger] a[m]).src & a[m].src == a[m].src && a[m].dst & a[m].dst
        == a[m].dst by {
        lemma_bits_or(a[m].src, a[m].src);
        lemma_bits_or(a[m].dst, a[m].dst);
    }
}

/// Folding a barrier from `src` to `dst`, at `at`, into the barriers kept from `first` on:
/// merged into the first one it folds into, or kept where none is.
pub open spec fn fold_bits(kept: Seq<Folded>, first: int, src: u32, dst: u32, at: usize) -> Seq<Folded> {
    if exists|m: int| first <= m < kept.len() && folds_into(#[trigger] kept[m], src, dst) {
        let m = choose|m: int|
            first <= m < kept.len() && folds_into(#[trigger] kept[m], src, dst) && forall|q: int|
                first <= q < m ==> !folds_into(#[trigger] kept[q], src, dst);
        kept.update(m, Folded { at: kept[m].at, src: kept[m].src | src, dst: kept[m].dst | dst })
    } else {
        kept.push(Folded { at, src, dst })
    }
}

proof fn lemma_fold_step_bits(
    nodes: Seq<(ValueId, IR)>,
    accesses: Seq<(ValueId, u32)>,
    first: int,
    state: (Seq<Folded>, Seq<usize>),
    at: usize,
)
    ensures
        fold_step(nodes, accesses, first, state, at).0 == match barrier_bits(nodes, accesses, at) {
            Some((src, dst)) => fold_bits(state.0, first, src, dst, at),
            None => state.0,
        },
{
    reveal(fold_step);
}

/// Folding one barrier keeps every kept barrier waiting on what it waited on, and leaves the
/// barrier folded waited on by one of those kept from `first` on.
proof fn lemma_self_and()
    by (bit_vector)
    ensures
        forall|x: u32| #[trigger] (x & x) == x,
{
}

/// Where a kept barrier from `k` on folds the barrier in, a first one from `first` on does.
proof fn lemma_first_fold(kept: Seq<Folded>, first: int, src: u32, dst: u32, k: int)
    requires
        first <= k <= kept.len(),
        forall|q: int| first <= q < k ==> !folds_into(#[trigger] kept[q], src, dst),
        exists|m: int| first <= m < kept.len() && folds_into(#[trigger] kept[m], src, dst),
    ensures
        exists|m: int|
            first <= m < kept.len() && folds_into(#[trigger] kept[m], src, dst) && forall|q: int|
                first <= q < m ==> !folds_into(#[trigger] kept[q], src, dst),
    decreases kept.len() - k,
{
    if k < kept.len() && !folds_into(kept[k], src, dst) {
        lemma_first_fold(kept, first, src, dst, k + 1);
    } else if k < kept.len() {
        assert(folds_into(kept[k], src, dst));
    }
}

#[verifier::spinoff_prover]
#[verifier::rlimit(80)]
proof fn lemma_fold_bits_waits(kept: Seq<Folded>, first: int, src: u32, dst: u32, at: usize)
    requires
        0 <= first <= kept.len(),
    ensures
        widens(kept, fold_bits(kept, first, src, dst, at)),
        covers(fold_bits(kept, first, src, dst, at), first, src, dst),
{
    lemma_self_and();
    if exists|m: int| first <= m < kept.len() && folds_into(#[trigger] kept[m], src, dst) {
        lemma_first_fold(kept, first, src, dst, first);
        let m = choose|m: int|
            first <= m < kept.len() && folds_into(#[trigger] kept[m], src, dst) && forall|q: int|
                first <= q < m ==> !folds_into(#[trigger] kept[q], src, dst);
        let merged = Folded { at: kept[m].at, src: kept[m].src | src, dst: kept[m].dst | dst };
        let after = kept.update(m, merged);
        assert(fold_bits(kept, first, src, dst, at) == after);
        lemma_bits_or(kept[m].src, src);
        lemma_bits_or(kept[m].dst, dst);
        assert(after[m] == merged);
        assert forall|q: int| 0 <= q < kept.len() implies (#[trigger] after[q]).src & kept[q].src == kept[q].src
            && after[q].dst & kept[q].dst == kept[q].dst by {
            if q != m {
                assert(after[q] == kept[q]);
                assert(kept[q].src & kept[q].src == kept[q].src);
                assert(kept[q].dst & kept[q].dst == kept[q].dst);
            }
        }
        assert(after[m].src & src == src && after[m].dst & dst == dst);
    } else {
        let after = kept.push(Folded { at, src, dst });
        assert(fold_bits(kept, first, src, dst, at) == after);
        assert forall|q: int| 0 <= q < kept.len() implies (#[trigger] after[q]).src & kept[q].src == kept[q].src
            && after[q].dst & kept[q].dst == kept[q].dst by {
            assert(after[q] == kept[q]);
            assert(kept[q].src & kept[q].src == kept[q].src);
            assert(kept[q].dst & kept[q].dst == kept[q].dst);
        }
        assert(after[kept.len() as int].src & src == src);
        assert(after[kept.len() as int].dst & dst == dst);
    }
}

proof fn lemma_fold_step_waits(
    nodes: Seq<(ValueId, IR)>,
    accesses: Seq<(ValueId, u32)>,
    first: int,
    state: (Seq<Folded>, Seq<usize>),
    at: usize,
)
    requires
        0 <= first <= state.0.len(),
    ensures
        widens(state.0, fold_step(nodes, accesses, first, state, at).0),
        barrier_bits(nodes, accesses, at) matches Some((src, dst)) ==> covers(
            fold_step(nodes, accesses, first, state, at).0,
            first,
            src,
            dst,
        ),
{
    lemma_fold_step_bits(nodes, accesses, first, state, at);
    lemma_widens_refl(state.0);
    if let Some((src, dst)) = barrier_bits(nodes, accesses, at) {
        lemma_fold_bits_waits(state.0, first, src, dst, at);
    }
}

/// Folding the barriers of a run loses no wait: every memory barrier of `run` is waited on by
/// one of the barriers kept from `first` on, whose source holds the barrier's source and whose
/// destination holds its destination, and every barrier kept before keeps waiting on what it
/// waited on.
#[verifier::spinoff_prover]
#[verifier::rlimit(60)]
pub proof fn lemma_fold_keeps_waits(
    nodes: Seq<(ValueId, IR)>,
    accesses: Seq<(ValueId, u32)>,
    first: int,
    state: (Seq<Folded>, Seq<usize>),
    run: Seq<usize>,
)
    requires
        0 <= first <= state.0.len(),
    ensures
        widens(state.0, fold_over(nodes, accesses, first, state, run).0),
        forall|i: int|
            0 <= i < run.len() ==> (barrier_bits(nodes, accesses, #[trigger] run[i]) matches Some((src, dst)) ==> covers(
                fold_over(nodes, accesses, first, state, run).0,
                first,
                src,
                dst,
            )),
    decreases run.len(),
{
    let result = fold_over(nodes, accesses, first, state, run).0;
    if run.len() == 0 {
        lemma_widens_refl(state.0);
    } else {
        let init = run.drop_last();
        lemma_fold_keeps_waits(nodes, accesses, first, state, init);
        let mid = fold_over(nodes, accesses, first, state, init);
        lemma_fold_step_waits(nodes, accesses, first, mid, run.last());
        lemma_widens_trans(state.0, mid.0, result);
        assert forall|i: int|
            0 <= i < run.len() implies (barrier_bits(nodes, accesses, #[trigger] run[i]) matches Some((src, dst)) ==> covers(
            result,
            first,
            src,
            dst,
        )) by {
            if let Some((src, dst)) = barrier_bits(nodes, accesses, run[i]) {
                if i < run.len() - 1 {
                    assert(run[i] == init[i]);
                    lemma_covers_widened(mid.0, result, first, src, dst);
                }
            }
        }
    }
}

/// Folds the memory barriers of `run` together: a barrier that shares its source or its
/// destination with one already kept from the run is merged into it and dropped; the others
/// are kept. A barrier whose accesses name no access constant is left alone.
#[verifier::spinoff_prover]
#[verifier::rlimit(100)]
pub fn fold_run(
    nodes: &Vec<(ValueId, IR)>,
    accesses: &Vec<(ValueId, u32)>,
    run: &Vec<usize>,
    kept: &mut Vec<Folded>,
    dropped: &mut Vec<usize>,
)
    requires
        forall|k: int| 0 <= k < run@.len() ==> (#[trigger] run@[k]) < nodes@.len(),
    ensures
        final(kept)@.len() >= old(kept)@.len(),
        forall|k: int| 0 <= k < final(dropped)@.len() - old(dropped)@.len() ==> nodes@[(#[trigger] final(dropped)@[old(dropped)@.len() + k]) as int].1 is MemoryBarrier,
        forall|k: int| 0 <= k < old(dropped)@.len() ==> #[trigger] final(dropped)@[k] == old(dropped)@[k],
        forall|k: int| 0 <= k < final(kept)@.len() ==> (#[trigger] final(kept)@[k]).at == (if k < old(kept)@.len() {
            old(kept)@[k].at
        } else {
            final(kept)@[k].at
        }),
        forall|k: int| old(kept)@.len() <= k < final(kept)@.len() ==> nodes@[(#[trigger] final(kept)@[k]).at as int].1 is MemoryBarrier,
        forall|k: int| 0 <= k < old(kept)@.len() ==> (#[trigger] final(kept)@[k]).at == old(kept)@[k].at,
        (final(kept)@, final(dropped)@) == fold_over(
            nodes@,
            accesses@,
            old(kept)@.len() as int,
            (old(kept)@, old(dropped)@),
            run@,
        ),
        widens(old(kept)@, final(kept)@),
        forall|i: int|
            0 <= i < run@.len() ==> (barrier_bits(nodes@, accesses@, #[trigger] run@[i]) matches Some((src, dst)) ==> covers(
                final(kept)@,
                old(kept)@.len() as int,
                src,
                dst,
            )),
{
    proof {
        lemma_fold_keeps_waits(nodes@, accesses@, old(kept)@.len() as int, (old(kept)@, old(dropped)@), run@);
    }
    let first = kept.len();
    let mut i: usize = 0;
    while i < run.len()
        invariant
            i <= run@.len(),
            first == old(kept)@.len(),
            kept@.len() >= first,
            forall|k: int| 0 <= k < run@.len() ==> (#[trigger] run@[k]) < nodes@.len(),
            forall|k: int| 0 <= k < dropped@.len() - old(dropped)@.len() ==> nodes@[(#[trigger] dropped@[old(dropped)@.len() + k]) as int].1 is MemoryBarrier,
            dropped@.len() >= old(dropped)@.len(),
            forall|k: int| 0 <= k < old(dropped)@.len() ==> #[trigger] dropped@[k] == old(dropped)@[k],
            forall|k: int| old(kept)@.len() <= k < kept@.len() ==> nodes@[(#[trigger] kept@[k]).at as int].1 is MemoryBarrier,
            forall|k: int| 0 <= k < old(kept)@.len() ==> (#[trigger] kept@[k]).at == old(kept)@[k].at,
            (kept@, dropped@) == fold_over(nodes@, accesses@, first as int, (old(kept)@, old(dropped)@), run@.take(i as int)),
        decreases run@.len() - i,
    {
        proof {
            reveal(fold_step);
            assert(run@.take(i + 1).drop_last() =~= run@.take(i as int));
            assert(run@.take(i + 1).last() == run@[i as int]);
        }
        let at = run[i];
        i = i + 1;
        let (src_access, dst_access) = match &nodes[at].1 {
            IR::MemoryBarrier { src_access, dst_access } => (*src_access, *dst_access),
            _ => continue,
        };
        let src = match lookup_bits(accesses, src_access) {
            Some(bits) => bits,
            None => continue,
        };
        let dst = match lookup_bits(accesses, dst_access) {
            Some(bits) => bits,
            None => continue,
        };
        proof {
            let k1 = choose|k: int|
                0 <= k < accesses@.len() && (#[trigger] accesses@[k]) == (src_access, src) && forall|l: int| 0 <= l < k ==> (#[trigger] accesses@[l]).0 != src_access;
            assert(accesses@[k1].0 == src_access);
            assert(first_bits(accesses@, src_access) == Some(src));
            let k2 = choose|k: int|
                0 <= k < accesses@.len() && (#[trigger] accesses@[k]) == (dst_access, dst) && forall|l: int| 0 <= l < k ==> (#[trigger] accesses@[l]).0 != dst_access;
            assert(accesses@[k2].0 == dst_access);
            assert(first_bits(accesses@, dst_access) == Some(dst));
        }
        let ghost kept0 = kept@;
        let mut merged = false;
        let mut k: usize = first;
        while k < kept.len()
            invariant
                first <= k <= kept@.len(),
                first == old(kept)@.len(),
                kept@.len() == kept0.len(),
                !merged ==> kept@ == kept0 && forall|q: int| first <= q < k ==> !folds_into(#[trigger] kept0[q], src, dst),
                merged ==> exists|m: int|
                    first <= m < k && folds_into(#[trigger] kept0[m], src, dst) && (forall|q: int|
                        first <= q < m ==> !folds_into(#[trigger] kept0[q], src, dst)) && kept@ == kept0.update(
                        m,
                        Folded { at: kept0[m].at, src: kept0[m].src | src, dst: kept0[m].dst | dst },
                    ),
                forall|q: int| old(kept)@.len() <= q < kept@.len() ==> nodes@[(#[trigger] kept@[q]).at as int].1 is MemoryBarrier,
                forall|q: int| 0 <= q < old(kept)@.len() ==> (#[trigger] kept@[q]).at == old(kept)@[q].at,
            decreases kept@.len() - k,
        {
            let folded = kept[k];
            if !merged && (folded.src == src || folded.dst == dst) {
                kept.set(k, Folded { at: folded.at, src: folded.src | src, dst: folded.dst | dst });
                merged = true;
                proof {
                    assert(folds_into(kept0[k as int], src, dst));
                }
            }
            k = k + 1;
        }
        proof {
            if merged {
                let m = choose|m: int|
                    first <= m < k && folds_into(#[trigger] kept0[m], src, dst) && (forall|q: int|
                        first <= q < m ==> !folds_into(#[trigger] kept0[q], src, dst)) && kept@ == kept0.update(
                        m,
                        Folded { at: kept0[m].at, src: kept0[m].src | src, dst: kept0[m].dst | dst },
                    );
                let c = choose|c: int|
                    first <= c < kept0.len() && folds_into(#[trigger] kept0[c], src, dst) && forall|q: int|
                        first <= q < c ==> !folds_into(#[trigger] kept0[q], src, dst);
                assert(c == m) by {
                    if c < m {
                        assert(!folds_into(kept0[c], src, dst));
                    }
                    if m < c {
                        assert(!folds_into(kept0[m], src, dst));
                    }
                }
            }
        }
        if merged {
            dropped.push(at);
        } else {
            kept.push(Folded { at, src, dst });
        }
    }
    proof {
        assert(run@.take(i as int) =~= run@);
    }
}

fn contains_index(list: &Vec<usize>, index: usize) -> (r: bool)
    ensures
        r == list@.contains(index),
{
    let mut i: usize = 0;
    while i < list.len()
        invariant
            i <= list@.len(),
            forall|k: int| 0 <= k < i ==> list@[k] != index,
        decreases list@.len() - i,
    {
        if list[i] == index {
            return true;
        }
        i = i + 1;
    }
    false
}

/// The access constant `pool` holds for `access`, or a fresh one put into `nodes` and the
/// pool where it holds none.
pub fn constant_for(
    nodes: &mut Vec<(ValueId, IR)>,
    pool: &mut Vec<(u32, ValueId)>,
    next_id: &mut u32,
    access: u32,
) -> (r: Option<ValueId>)
    ensures
        *final(next_id) >= *old(next_id),
        final(nodes)@ == old(nodes)@ || (final(nodes)@ == old(nodes)@.push(
            (ValueId((*final(next_id) - 1) as u32), IR::Constant(Constant::Access(Access(access)))),
        ) && *final(next_id) - 1 >= *old(next_id)),
        r matches Some(id) ==> {
            ||| (exists|k: int| 0 <= k < old(pool)@.len() && #[trigger] old(pool)@[k] == (access, id))
                && final(nodes)@ == old(nodes)@ && final(pool)@ == old(pool)@
            ||| (forall|k: int| 0 <= k < old(pool)@.len() ==> (#[trigger] old(pool)@[k]).0 != access) && id.0
                == *old(next_id) && final(nodes)@ == old(nodes)@.push((id, IR::Constant(Constant::Access(Access(access)))))
                && final(pool)@ == old(pool)@.push((access, id))
        },
        r is None ==> *old(next_id) == u32::MAX && final(nodes)@ == old(nodes)@ && *final(next_id) == u32::MAX,
{
    let mut i: usize = 0;
    while i < pool.len()
        invariant
            i <= pool@.len(),
            pool@ == old(pool)@,
            forall|k: int| 0 <= k < i ==> (#[trigger] old(pool)@[k]).0 != access,
        decreases pool@.len() - i,
    {
        if pool[i].0 == access {
            proof {
                assert(pool@[i as int] == (access, pool@[i as int].1));
            }
            return Some(pool[i].1);
        }
        i = i + 1;
    }
    if *next_id == u32::MAX {
        return None;
    }
    let id = alloc_id(next_id);
    pool.push((access, id));
    nodes.push((id, IR::Constant(Constant::Access(Access(access)))));
    Some(id)
}

/// Everything but memory barriers, among what was recorded before `base`.
pub open spec fn not_memory_barrier_before(base: u32) -> spec_fn((ValueId, IR)) -> bool {
    |x: (ValueId, IR)| !(x.1 is MemoryBarrier) && x.0.0 < base
}

pub open spec fn not_memory_barrier() -> spec_fn((ValueId, IR)) -> bool {
    |x: (ValueId, IR)| !(x.1 is MemoryBarrier)
}

/// Folds the memory barriers of each run into as few as wait on distinct accesses. Nothing
/// but memory barriers changes; the access constants the folded barriers wait on are new
/// ones, put just before them, where the program holds none for them already.
pub fn fold_barriers(nodes: Vec<(ValueId, IR)>, next_id: &mut u32) -> (r: Option<Vec<(ValueId, IR)>>)
    requires
        forall|k: int| 0 <= k < nodes@.len() ==> (#[trigger] nodes@[k]).0.0 < *old(next_id),
    ensures
        *final(next_id) >= *old(next_id),
        r is None ==> *final(next_id) == u32::MAX,
        r matches Some(out) ==> {
            &&& out@.filter(not_memory_barrier_before(*old(next_id))) == nodes@.filter(not_memory_barrier())
            &&& forall|k: int|
                0 <= k < out@.len() && (#[trigger] out@[k]).0.0 >= *old(next_id) ==> out@[k].1 is Constant
            &&& forall|k: int| 0 <= k < out@.len() ==> (#[trigger] out@[k]).0.0 < *final(next_id)
        },
{
    let ghost base = *next_id;
    let accesses = access_constants(&nodes);
    let mut kept: Vec<Folded> = Vec::new();
    let mut dropped: Vec<usize> = Vec::new();
    let runs = barrier_runs(&nodes);
    let mut q: usize = 0;
    while q < runs.len()
        invariant
            q <= runs@.len(),
            forall|qq: int, k: int| 0 <= qq < runs@.len() && 0 <= k < runs@[qq]@.len() ==> (#[trigger] runs@[qq]@[k]) < nodes@.len(),
            forall|k: int| 0 <= k < dropped@.len() ==> nodes@[(#[trigger] dropped@[k]) as int].1 is MemoryBarrier,
            forall|k: int| 0 <= k < kept@.len() ==> nodes@[(#[trigger] kept@[k]).at as int].1 is MemoryBarrier,
        decreases runs@.len() - q,
    {
        let ghost before = dropped@;
        fold_run(&nodes, &accesses, &runs[q], &mut kept, &mut dropped);
        proof {
            assert forall|k: int| 0 <= k < dropped@.len() implies nodes@[(#[trigger] dropped@[k]) as int].1 is MemoryBarrier by {
                if k >= before.len() {
                    assert(dropped@[k] == dropped@[before.len() + (k - before.len())]);
                }
            }
        }
        q = q + 1;
    }
    if dropped.len() == 0 {
        proof {
            assert forall|k: int| 0 <= k < nodes@.len() implies (#[trigger] nodes@[k]).0.0 < *next_id by {}
            lemma_filter_same(nodes@, base);
        }
        return Some(nodes);
    }
    let mut pool: Vec<(u32, ValueId)> = Vec::new();
    let mut i: usize = 0;
    while i < accesses.len()
        invariant
            i <= accesses@.len(),
        decreases accesses@.len() - i,
    {
        let (id, bits) = accesses[i];
        let mut seen = false;
        let mut k: usize = 0;
        while k < pool.len()
            invariant
                k <= pool@.len(),
            decreases pool@.len() - k,
        {
            if pool[k].0 == bits {
                seen = true;
            }
            k = k + 1;
        }
        if !seen {
            pool.push((bits, id));
        }
        i = i + 1;
    }
    let ghost all = nodes@;
    let total = nodes.len();
    let mut rest = reversed(nodes);
    let mut result: Vec<(ValueId, IR)> = Vec::new();
    let mut index: usize = 0;
    proof {
        assert(result@.filter(not_memory_barrier_before(base)) =~= Seq::<(ValueId, IR)>::empty());
        assert(all.subrange(0, 0) =~= Seq::<(ValueId, IR)>::empty());
    }
    while rest.len() > 0
        invariant
            index == all.len() - rest@.len(),
            rest@.len() <= all.len(),
            all.len() == total,
            base == *old(next_id),
            forall|k: int| 0 <= k < rest@.len() ==> #[trigger] rest@[k] == all[all.len() - 1 - k],
            forall|k: int| 0 <= k < all.len() ==> (#[trigger] all[k]).0.0 < base,
            forall|k: int| 0 <= k < dropped@.len() ==> all[(#[trigger] dropped@[k]) as int].1 is MemoryBarrier,
            forall|k: int| 0 <= k < kept@.len() ==> all[(#[trigger] kept@[k]).at as int].1 is MemoryBarrier,
            *next_id >= base,
            result@.filter(not_memory_barrier_before(base)) == all.subrange(0, index as int).filter(not_memory_barrier()),
            forall|k: int| 0 <= k < result@.len() && (#[trigger] result@[k]).0.0 >= base ==> result@[k].1 is Constant,
            forall|k: int| 0 <= k < result@.len() ==> (#[trigger] result@[k]).0.0 < *next_id,
        decreases rest@.len(),
    {
        let (id, ir) = rest.pop().unwrap();
        assert((id, ir) == all[index as int]);
        proof {
            assert(all.subrange(0, index + 1) =~= all.subrange(0, index as int).push(all[index as int]));
            lemma_filter_push(all.subrange(0, index as int), all[index as int], not_memory_barrier());
        }
        if contains_index(&dropped, index) {
            proof {
                let w = choose|k: int| 0 <= k < dropped@.len() && dropped@[k] == index;
                assert(all[dropped@[w] as int].1 is MemoryBarrier);
            }
            index = index + 1;
            continue;
        }
        let mut folded: Option<Folded> = None;
        let mut k: usize = 0;
        while k < kept.len()
            invariant
                k <= kept@.len(),
                folded matches Some(f) ==> f.at == index && exists|j: int| 0 <= j < kept@.len() && kept@[j] == f,
            decreases kept@.len() - k,
        {
            if folded.is_none() && kept[k].at == index {
                folded = Some(kept[k]);
            }
            k = k + 1;
        }
        match folded {
            None => {
                let ghost before = result@;
                result.push((id, ir));
                proof {
                    lemma_filter_push(before, (id, ir), not_memory_barrier_before(base));
                    assert forall|k: int| 0 <= k < result@.len() && (#[trigger] result@[k]).0.0 >= base implies result@[k].1 is Constant by {
                        if k < before.len() {
                            assert(result@[k] == before[k]);
                        }
                    }
                    assert forall|k: int| 0 <= k < result@.len() implies (#[trigger] result@[k]).0.0 < *next_id by {
                        if k < before.len() {
                            assert(result@[k] == before[k]);
                        }
                    }
                }
            },
            Some(f) => {
                proof {
                    let w = choose|j: int| 0 <= j < kept@.len() && kept@[j] == f;
                    assert(all[kept@[w].at as int].1 is MemoryBarrier);
                }
                let ghost before = result@;
                let src_access = match constant_for(&mut result, &mut pool, next_id, f.src) {
                    Some(c) => c,
                    None => return None,
                };
                let ghost mid = result@;
                proof {
                    if mid != before {
                        lemma_filter_push(before, mid.last(), not_memory_barrier_before(base));
                        assert(mid == before.push(mid.last()));
                    }
                }
                let dst_access = match constant_for(&mut result, &mut pool, next_id, f.dst) {
                    Some(c) => c,
                    None => return None,
                };
                let ghost mid2 = result@;
                proof {
                    if mid2 != mid {
                        lemma_filter_push(mid, mid2.last(), not_memory_barrier_before(base));
                        assert(mid2 == mid.push(mid2.last()));
                    }
                }
                let barrier = (id, IR::MemoryBarrier { src_access, dst_access });
                result.push(barrier);
                proof {
                    lemma_filter_push(mid2, barrier, not_memory_barrier_before(base));
                    assert forall|k: int| 0 <= k < result@.len() && (#[trigger] result@[k]).0.0 >= base implies result@[k].1 is Constant by {
                        if k < before.len() {
                            assert(result@[k] == before[k]);
                        } else if k < mid.len() {
                            assert(result@[k] == mid[k]);
                        } else if k < mid2.len() {
                            assert(result@[k] == mid2[k]);
                        }
                    }
                    assert forall|k: int| 0 <= k < result@.len() implies (#[trigger] result@[k]).0.0 < *next_id by {
                        if k < before.len() {
                            assert(result@[k] == before[k]);
                        } else if k < mid.len() {
                            assert(result@[k] == mid[k]);
                        } else if k < mid2.len() {
                            assert(result@[k] == mid2[k]);
                        }
                    }
                }
            },
        }
        index = index + 1;
    }
    proof {
        assert(all.subrange(0, all.len() as int) =~= all);
    }
    Some(result)
}

proof fn lemma_filter_same(nodes: Seq<(ValueId, IR)>, base: u32)
    requires
        forall|k: int| 0 <= k < nodes.len() ==> (#[trigger] nodes[k]).0.0 < base,
    ensures
        nodes.filter(not_memory_barrier_before(base)) == nodes.filter(not_memory_barrier()),
    decreases nodes.len(),
{
    reveal_with_fuel(Seq::filter, 1);
    if nodes.len() > 0 {
        lemma_filter_same(nodes.drop_last(), base);
    }
}

} // verus!
