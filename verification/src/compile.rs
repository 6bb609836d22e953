use vstd::prelude::*;

use crate::ids::{LabelId, ValueId};
use crate::ir::{IR, operands_spec, same_ir};
use crate::analysis::{PipelineBindings, analyze_descriptors, consumes_without_pipeline, resolve_descriptor_access, write_is_sound_spec};
use crate::lower::{
    draws_name_bound_pipelines, draws_run_with_shapes, globals_first, infer, infer_usage, lemma_globals_first_prepared, lemma_inference_keeps_writes, lemma_usage_keeps_writes,
};
use crate::module::{Block, Module, Terminator};
use crate::opt::{
    beyond_control_node, fold_barriers, lemma_orders_writes_beyond, not_memory_barrier, not_memory_barrier_before, simplify_cfg,
};
use crate::program::Program;
use crate::sync::{
    lemma_prepared_filter, lemma_prepared_pointwise, lemma_prepared_unfilter, orders_writes, reversed, sync, writes_prepared,
};

verus! {

/// Every instruction reads only recorded values, each recorded before it or one that reads
/// nothing itself (a name given to a resource after it was declared), so that what reads what
/// has no cycle.
pub open spec fn defined_before_use(instrs: Seq<IR>) -> bool {
    forall|i: int, j: int|
        0 <= i < instrs.len() && 0 <= j < operands_spec(instrs[i]).len() ==> {
            let o = #[trigger] operands_spec(instrs[i])[j];
            o.0 < instrs.len() && (o.0 < i || operands_spec(instrs[o.0 as int]).len() == 0)
        }
}

/// Where a depth-first walk can find `id` below what reads it: instructions that read nothing
/// lowest, the others by their position.
pub open spec fn rank(instrs: Seq<IR>, id: ValueId) -> int {
    if operands_spec(instrs[id.0 as int]).len() == 0 {
        0
    } else {
        id.0 + 1
    }
}

/// `nodes` lists instructions of `instrs` under their ids, each id once, and each instruction
/// after every value it reads.
pub open spec fn topologically_ordered(instrs: Seq<IR>, nodes: Seq<(ValueId, IR)>) -> bool {
    &&& forall|k: int|
        0 <= k < nodes.len() ==> (#[trigger] nodes[k]).0.0 < instrs.len() && same_ir(
            instrs[nodes[k].0.0 as int],
            nodes[k].1,
        )
    &&& forall|k: int, l: int| 0 <= k < l < nodes.len() ==> (#[trigger] nodes[k]).0 != (#[trigger] nodes[l]).0
    &&& forall|k: int, j: int|
        0 <= k < nodes.len() && 0 <= j < operands_spec(nodes[k].1).len() ==> exists|l: int|
            0 <= l < k && (#[trigger] nodes[l]).0 == #[trigger] operands_spec(nodes[k].1)[j]
}

/// `y` reads `x` as an operand.
pub open spec fn reads(instrs: Seq<IR>, y: ValueId, x: ValueId) -> bool {
    0 <= y.0 < instrs.len() && operands_spec(instrs[y.0 as int]).contains(x)
}

/// `path` starts at a root and goes each step from an instruction to one of its operands.
pub open spec fn is_path(instrs: Seq<IR>, roots: Seq<ValueId>, path: Seq<ValueId>) -> bool {
    &&& path.len() >= 1
    &&& roots.contains(path[0])
    &&& forall|i: int| 0 <= i < path.len() - 1 ==> #[trigger] reads(instrs, path[i], path[i + 1])
}

/// `x` is reached from `roots` through operands.
pub open spec fn reachable(instrs: Seq<IR>, roots: Seq<ValueId>, x: ValueId) -> bool {
    exists|path: Seq<ValueId>| #[trigger] is_path(instrs, roots, path) && path.last() == x
}

/// An operand of a reached instruction is reached.
proof fn lemma_reach_operand(instrs: Seq<IR>, roots: Seq<ValueId>, y: ValueId, j: int)
    requires
        reachable(instrs, roots, y),
        0 <= y.0 < instrs.len(),
        0 <= j < operands_spec(instrs[y.0 as int]).len(),
    ensures
        reachable(instrs, roots, operands_spec(instrs[y.0 as int])[j]),
{
    let path = choose|path: Seq<ValueId>| #[trigger] is_path(instrs, roots, path) && path.last() == y;
    let x = operands_spec(instrs[y.0 as int])[j];
    let longer = path.push(x);
    assert(operands_spec(instrs[y.0 as int]).contains(x));
    assert forall|i: int| 0 <= i < longer.len() - 1 implies #[trigger] reads(instrs, longer[i], longer[i + 1]) by {
        if i < path.len() - 1 {
            assert(reads(instrs, path[i], path[i + 1]));
        } else {
            assert(longer[i] == y);
        }
    }
    assert(is_path(instrs, roots, longer));
}

/// A root is reached.
proof fn lemma_reach_root(instrs: Seq<IR>, roots: Seq<ValueId>, k: int)
    requires
        0 <= k < roots.len(),
    ensures
        reachable(instrs, roots, roots[k]),
{
    assert(roots.contains(roots[k]));
    assert(is_path(instrs, roots, seq![roots[k]]));
}

/// `id` is among the ids `nodes` lists.
pub open spec fn listed(nodes: Seq<(ValueId, IR)>, id: ValueId) -> bool {
    exists|l: int| 0 <= l < nodes.len() && (#[trigger] nodes[l]).0 == id
}

/// How many entries of `s` are `v`.
pub open spec fn count_of(s: Seq<u8>, v: u8) -> nat
    decreases s.len(),
{
    if s.len() == 0 {
        0
    } else {
        count_of(s.drop_last(), v) + if s.last() == v { 1nat } else { 0nat }
    }
}

proof fn lemma_count_update(s: Seq<u8>, i: int, w: u8, v: u8)
    requires
        0 <= i < s.len(),
    ensures
        count_of(s.update(i, w), v) + (if s[i] == v { 1int } else { 0int }) == count_of(s, v) + (if w == v {
            1int
        } else {
            0int
        }),
    decreases s.len(),
{
    if i < s.len() - 1 {
        assert(s.update(i, w).drop_last() =~= s.drop_last().update(i, w));
        lemma_count_update(s.drop_last(), i, w, v);
    } else {
        assert(s.update(i, w).drop_last() =~= s.drop_last());
    }
}

/// The instructions `roots` reach through what they read, each once, in the order a depth-first
/// walk from the roots finishes them: every instruction comes after the values it reads.
#[verifier::spinoff_prover]
#[verifier::rlimit(100)]
pub fn topo_sort(instrs: &Vec<IR>, roots: &Vec<ValueId>) -> (r: Vec<(ValueId, IR)>)
    requires
        defined_before_use(instrs@),
        forall|k: int| 0 <= k < roots@.len() ==> (#[trigger] roots@[k]).0 < instrs@.len(),
    ensures
        topologically_ordered(instrs@, r@),
        forall|k: int| 0 <= k < roots@.len() ==> #[trigger] listed(r@, roots@[k]),
        forall|k: int| 0 <= k < r@.len() ==> reachable(instrs@, roots@, (#[trigger] r@[k]).0),
{
    let n = instrs.len();
    let mut state: Vec<u8> = Vec::with_capacity(n);
    let mut i: usize = 0;
    while i < n
        invariant
            i <= n,
            state@.len() == i,
            forall|x: int| 0 <= x < i ==> state@[x] == 0,
        decreases n - i,
    {
        state.push(0);
        i = i + 1;
    }
    let mut stack: Vec<ValueId> = Vec::new();
    let mut k: usize = roots.len();
    while k > 0
        invariant
            k <= roots@.len(),
            stack@.len() == roots@.len() - k,
            forall|q: int| 0 <= q < stack@.len() ==> #[trigger] stack@[q] == roots@[roots@.len() - 1 - q],
        decreases k,
    {
        k = k - 1;
        stack.push(roots[k]);
    }
    let ghost mut ret: Seq<bool> = Seq::new(stack@.len(), |q: int| false);
    let ghost mut pos: Seq<int> = Seq::new(n as nat, |x: int| -1);
    let mut nodes: Vec<(ValueId, IR)> = Vec::new();
    proof {
        assert forall|x: int| 0 <= x < roots@.len() implies state@[(#[trigger] roots@[x]).0 as int] == 2 || exists|q: int|
            0 <= q < stack@.len() && #[trigger] stack@[q] == roots@[x] by {
            assert(stack@[roots@.len() - 1 - x] == roots@[x]);
        }
        assert forall|q: int| 0 <= q < stack@.len() implies reachable(instrs@, roots@, #[trigger] stack@[q]) by {
            lemma_reach_root(instrs@, roots@, roots@.len() - 1 - q);
        }
    }
    while stack.len() > 0
        invariant
            n == instrs@.len(),
            state@.len() == n,
            ret.len() == stack@.len(),
            pos.len() == n,
            defined_before_use(instrs@),
            forall|k: int| 0 <= k < roots@.len() ==> (#[trigger] roots@[k]).0 < n,
            forall|x: int| 0 <= x < n ==> #[trigger] state@[x] <= 2,
            forall|q: int| 0 <= q < stack@.len() ==> (#[trigger] stack@[q]).0 < n,
            forall|x: int|
                0 <= x < n && #[trigger] state@[x] == 1 ==> exists|p: int|
                    0 <= p < stack@.len() && ret[p] && (#[trigger] stack@[p]).0 == x,
            forall|p: int| 0 <= p < stack@.len() && #[trigger] ret[p] ==> state@[stack@[p].0 as int] == 1,
            forall|p: int, j: int|
                0 <= p < stack@.len() && ret[p] && 0 <= j < operands_spec(instrs@[stack@[p].0 as int]).len()
                    ==> state@[(#[trigger] operands_spec(instrs@[stack@[p].0 as int])[j]).0 as int] == 2 || exists|q: int|
                    p < q < stack@.len() && #[trigger] stack@[q] == operands_spec(instrs@[stack@[p].0 as int])[j],
            forall|p: int, q: int|
                0 <= p < q < stack@.len() && #[trigger] ret[p] ==> rank(instrs@, #[trigger] stack@[q]) < rank(instrs@, stack@[p]),
            forall|x: int|
                0 <= x < roots@.len() ==> state@[(#[trigger] roots@[x]).0 as int] == 2 || exists|q: int|
                    0 <= q < stack@.len() && #[trigger] stack@[q] == roots@[x],
            forall|k: int|
                0 <= k < nodes@.len() ==> (#[trigger] nodes@[k]).0.0 < n && same_ir(
                    instrs@[nodes@[k].0.0 as int],
                    nodes@[k].1,
                ) && state@[nodes@[k].0.0 as int] == 2 && pos[nodes@[k].0.0 as int] == k,
            forall|x: int|
                0 <= x < n && #[trigger] state@[x] == 2 ==> 0 <= pos[x] < nodes@.len() && nodes@[pos[x]].0.0 == x,
            forall|k: int, j: int|
                0 <= k < nodes@.len() && 0 <= j < operands_spec(nodes@[k].1).len() ==> pos[(#[trigger] operands_spec(
                    nodes@[k].1,
                )[j]).0 as int] < k && state@[operands_spec(nodes@[k].1)[j].0 as int] == 2,
            forall|q: int| 0 <= q < stack@.len() ==> reachable(instrs@, roots@, #[trigger] stack@[q]),
            forall|k: int| 0 <= k < nodes@.len() ==> reachable(instrs@, roots@, (#[trigger] nodes@[k]).0),
        decreases count_of(state@, 0), count_of(state@, 1), stack@.len(),
    {
        let top = stack.len() - 1;
        let id = stack[top];
        let at = id.0 as usize;
        let s = state[at];
        let ghost old_state = state@;
        let ghost old_stack = stack@;
        let ghost old_ret = ret;
        if s == 2 {
            stack.pop();
            proof {
                assert forall|q: int| 0 <= q < stack@.len() implies reachable(instrs@, roots@, #[trigger] stack@[q]) by {
                    assert(stack@[q] == old_stack[q]);
                }
                ret = ret.drop_last();
                assert forall|p: int, j: int|
                    0 <= p < stack@.len() && ret[p] && 0 <= j < operands_spec(instrs@[stack@[p].0 as int]).len()
                        implies state@[(#[trigger] operands_spec(instrs@[stack@[p].0 as int])[j]).0 as int] == 2
                        || exists|q: int| p < q < stack@.len() && #[trigger] stack@[q] == operands_spec(
                        instrs@[stack@[p].0 as int],
                    )[j] by {
                    let o = operands_spec(instrs@[stack@[p].0 as int])[j];
                    assert(old_ret[p] && old_stack[p] == stack@[p]);
                    if state@[o.0 as int] != 2 {
                        let q = choose|q: int| p < q < old_stack.len() && #[trigger] old_stack[q] == o;
                        assert(q != top);
                        assert(stack@[q] == o);
                    }
                }
                assert forall|x: int| 0 <= x < n && #[trigger] state@[x] == 1 implies exists|p: int|
                    0 <= p < stack@.len() && ret[p] && (#[trigger] stack@[p]).0 == x by {
                    let p = choose|p: int| 0 <= p < old_stack.len() && old_ret[p] && (#[trigger] old_stack[p]).0 == x;
                    assert(p != top);
                    assert(stack@[p] == old_stack[p]);
                }
                assert forall|x: int|
                    0 <= x < roots@.len() implies state@[(#[trigger] roots@[x]).0 as int] == 2 || exists|q: int|
                    0 <= q < stack@.len() && #[trigger] stack@[q] == roots@[x] by {
                    if state@[roots@[x].0 as int] != 2 {
                        let q = choose|q: int| 0 <= q < old_stack.len() && #[trigger] old_stack[q] == roots@[x];
                        assert(q != top);
                        assert(stack@[q] == old_stack[q]);
                    }
                }
            }
        } else if s == 0 {
            state.set(at, 1);
            proof {
                lemma_count_update(old_state, at as int, 1, 0);
                lemma_count_update(old_state, at as int, 1, 1);
                ret = ret.update(top as int, true);
            }
            let ops = instrs[at].visit_operands();
            let ghost base = stack@;
            let ghost base_ret = ret;
            let ghost ops_v = operands_spec(instrs@[at as int]);
            assert(ops@ == ops_v);
            let mut j: usize = ops.len();
            while j > 0
                invariant
                    j <= ops@.len(),
                    stack@.len() == base.len() + (ops@.len() - j),
                    forall|q: int| 0 <= q < base.len() ==> #[trigger] stack@[q] == base[q],
                    forall|q: int| base.len() <= q < stack@.len() ==> #[trigger] stack@[q] == ops@[ops@.len() - 1 - (q - base.len())],
                decreases j,
            {
                j = j - 1;
                stack.push(ops[j]);
            }
            proof {
                assert forall|q: int| 0 <= q < stack@.len() implies reachable(instrs@, roots@, #[trigger] stack@[q]) by {
                    if q >= base.len() {
                        let jj = ops@.len() - 1 - (q - base.len());
                        assert(stack@[q] == ops_v[jj]);
                        assert(old_stack[top as int] == id);
                        lemma_reach_operand(instrs@, roots@, id, jj);
                    } else {
                        assert(stack@[q] == base[q]);
                        assert(base[q] == old_stack[q]);
                    }
                }
                ret = base_ret + Seq::new(ops@.len() as nat, |q: int| false);
                assert forall|q: int| 0 <= q < stack@.len() implies (#[trigger] stack@[q]).0 < n by {
                    if q >= base.len() {
                        let jj = ops@.len() - 1 - (q - base.len());
                        assert(stack@[q] == ops_v[jj]);
                        assert(ops_v[jj].0 < n);
                    }
                }
                assert forall|p: int, q: int|
                    0 <= p < q < stack@.len() && #[trigger] ret[p] implies rank(instrs@, #[trigger] stack@[q]) < rank(
                    instrs@,
                    stack@[p],
                ) by {
                    if q >= base.len() {
                        let jj = ops@.len() - 1 - (q - base.len());
                        assert(stack@[q] == ops_v[jj]);
                        assert(ops_v[jj].0 < at || operands_spec(instrs@[ops_v[jj].0 as int]).len() == 0);
                        assert(rank(instrs@, stack@[q]) < rank(instrs@, id));
                        if p < top {
                            assert(old_ret[p]);
                            assert(rank(instrs@, old_stack[top as int]) < rank(instrs@, old_stack[p]));
                        }
                    } else {
                        assert(old_ret[p]);
                    }
                }
                assert forall|p: int, jj: int|
                    0 <= p < stack@.len() && ret[p] && 0 <= jj < operands_spec(instrs@[stack@[p].0 as int]).len()
                        implies state@[(#[trigger] operands_spec(instrs@[stack@[p].0 as int])[jj]).0 as int] == 2
                        || exists|q: int| p < q < stack@.len() && #[trigger] stack@[q] == operands_spec(
                        instrs@[stack@[p].0 as int],
                    )[jj] by {
                    let o = operands_spec(instrs@[stack@[p].0 as int])[jj];
                    if p == top {
                        let q = base.len() + (ops@.len() - 1 - jj);
                        assert(stack@[q] == ops@[jj]);
                    } else {
                        assert(old_ret[p]);
                        assert(stack@[p] == old_stack[p]);
                        if state@[o.0 as int] != 2 {
                            let q = choose|q: int| p < q < old_stack.len() && #[trigger] old_stack[q] == o;
                            assert(stack@[q] == o);
                        }
                    }
                }
                assert forall|x: int| 0 <= x < n && #[trigger] state@[x] == 1 implies exists|p: int|
                    0 <= p < stack@.len() && ret[p] && (#[trigger] stack@[p]).0 == x by {
                    if x == at {
                        assert(ret[top as int] && stack@[top as int] == id);
                    } else {
                        let p = choose|p: int| 0 <= p < old_stack.len() && old_ret[p] && (#[trigger] old_stack[p]).0 == x;
                        assert(stack@[p] == old_stack[p]);
                    }
                }
                assert forall|x: int|
                    0 <= x < roots@.len() implies state@[(#[trigger] roots@[x]).0 as int] == 2 || exists|q: int|
                    0 <= q < stack@.len() && #[trigger] stack@[q] == roots@[x] by {
                    if state@[roots@[x].0 as int] != 2 {
                        let q = choose|q: int| 0 <= q < old_stack.len() && #[trigger] old_stack[q] == roots@[x];
                        assert(stack@[q] == old_stack[q]);
                    }
                }
            }
        } else {
            proof {
                let p = choose|p: int| 0 <= p < old_stack.len() && old_ret[p] && (#[trigger] old_stack[p]).0 == at;
                if p < top {
                    assert(rank(instrs@, old_stack[top as int]) < rank(instrs@, old_stack[p]));
                }
                assert(p == top);
            }
            state.set(at, 2);
            stack.pop();
            let copy = instrs[at].copy();
            nodes.push((id, copy));
            proof {
                lemma_count_update(old_state, at as int, 2, 0);
                lemma_count_update(old_state, at as int, 2, 1);
                pos = pos.update(at as int, nodes@.len() - 1);
                ret = ret.drop_last();
                assert(old_stack[top as int] == id);
                assert forall|q: int| 0 <= q < stack@.len() implies reachable(instrs@, roots@, #[trigger] stack@[q]) by {
                    assert(stack@[q] == old_stack[q]);
                }
                let k = nodes@.len() - 1;
                assert forall|jj: int| 0 <= jj < operands_spec(nodes@[k].1).len() implies pos[(#[trigger] operands_spec(
                    nodes@[k].1,
                )[jj]).0 as int] < k && state@[operands_spec(nodes@[k].1)[jj].0 as int] == 2 by {
                    let o = operands_spec(instrs@[at as int])[jj];
                    assert(operands_spec(nodes@[k].1) == operands_spec(instrs@[at as int]));
                    assert(old_state[o.0 as int] == 2);
                }
                assert forall|p: int, j: int|
                    0 <= p < stack@.len() && ret[p] && 0 <= j < operands_spec(instrs@[stack@[p].0 as int]).len()
                        implies state@[(#[trigger] operands_spec(instrs@[stack@[p].0 as int])[j]).0 as int] == 2
                        || exists|q: int| p < q < stack@.len() && #[trigger] stack@[q] == operands_spec(
                        instrs@[stack@[p].0 as int],
                    )[j] by {
                    let o = operands_spec(instrs@[stack@[p].0 as int])[j];
                    assert(old_ret[p] && old_stack[p] == stack@[p]);
                    if state@[o.0 as int] != 2 {
                        let q = choose|q: int| p < q < old_stack.len() && #[trigger] old_stack[q] == o;
                        assert(q != top);
                        assert(stack@[q] == o);
                    }
                }
                assert forall|x: int| 0 <= x < n && #[trigger] state@[x] == 1 implies exists|p: int|
                    0 <= p < stack@.len() && ret[p] && (#[trigger] stack@[p]).0 == x by {
                    let p = choose|p: int| 0 <= p < old_stack.len() && old_ret[p] && (#[trigger] old_stack[p]).0 == x;
                    assert(p != top);
                    assert(stack@[p] == old_stack[p]);
                }
                assert forall|x: int|
                    0 <= x < roots@.len() implies state@[(#[trigger] roots@[x]).0 as int] == 2 || exists|q: int|
                    0 <= q < stack@.len() && #[trigger] stack@[q] == roots@[x] by {
                    if state@[roots@[x].0 as int] != 2 {
                        let q = choose|q: int| 0 <= q < old_stack.len() && #[trigger] old_stack[q] == roots@[x];
                        assert(q != top);
                        assert(stack@[q] == old_stack[q]);
                    }
                }
            }
        }
    }
    proof {
        assert forall|k: int, l: int| 0 <= k < l < nodes@.len() implies (#[trigger] nodes@[k]).0 != (#[trigger] nodes@[l]).0 by {
            if nodes@[k].0 == nodes@[l].0 {
                assert(pos[nodes@[k].0.0 as int] == k);
            }
        }
        assert forall|k: int, j: int|
            0 <= k < nodes@.len() && 0 <= j < operands_spec(nodes@[k].1).len() implies exists|l: int|
            0 <= l < k && (#[trigger] nodes@[l]).0 == #[trigger] operands_spec(nodes@[k].1)[j] by {
            let o = operands_spec(nodes@[k].1)[j];
            let l = pos[o.0 as int];
            assert(nodes@[l].0.0 == o.0);
        }
        assert forall|k: int| 0 <= k < roots@.len() implies #[trigger] listed(nodes@, roots@[k]) by {
            let l = pos[roots@[k].0 as int];
            assert(state@[roots@[k].0 as int] == 2);
            assert(nodes@[l].0.0 == roots@[k].0);
            assert(nodes@[l].0 == roots@[k]);
        }
    }
    nodes
}

/// Instructions that belong to no block: types, constants, variables, arrays and the
/// resources the program creates.
pub open spec fn is_global_spec(ir: IR) -> bool {
    ||| ir is Type
    ||| ir is Constant
    ||| ir is Variable
    ||| ir is Array
    ||| ir is ConstructBuffer
    ||| ir is ConstructImage
}

pub fn is_global(ir: &IR) -> (r: bool)
    ensures
        r == is_global_spec(*ir),
{
    match ir {
        IR::Type(_) | IR::Constant(_) | IR::Variable { .. } | IR::Array { .. } | IR::ConstructBuffer { .. }
        | IR::ConstructImage { .. } => true,
        _ => false,
    }
}

/// What laying the blocks out adds: the labels that open them and what ends them.
pub open spec fn is_control(ir: IR) -> bool {
    ||| ir is Label
    ||| ir is Return
    ||| ir is Branch
    ||| ir is SelectionMerge
    ||| ir is BranchConditional
}

/// The next free id, taken. Ids are never handed out twice, so there has to be one left.
pub fn alloc_id(next_id: &mut u32) -> (r: ValueId)
    requires
        *old(next_id) < u32::MAX,
    ensures
        r.0 == *old(next_id),
        *final(next_id) == *old(next_id) + 1,
{
    let id = ValueId(*next_id);
    *next_id = *next_id + 1;
    id
}

/// An instruction that ends a block.
pub open spec fn is_terminator(ir: IR) -> bool {
    ir is Return || ir is Branch || ir is BranchConditional
}

/// The labels that open the blocks of `s`, in order.
pub open spec fn labels_in(s: Seq<(ValueId, IR)>) -> Seq<LabelId>
    decreases s.len(),
{
    if s.len() == 0 {
        Seq::empty()
    } else {
        match s.last().1 {
            IR::Label { label } => labels_in(s.drop_last()).push(label),
            _ => labels_in(s.drop_last()),
        }
    }
}

/// The labels of `blocks`, in order.
pub open spec fn block_labels(blocks: Seq<Block>) -> Seq<LabelId> {
    Seq::new(blocks.len(), |b: int| blocks[b].label)
}

/// `out` is `g` instructions outside any block, then blocks, each opened by a label and ended
/// by a terminator with neither between: a conditional branch right after the merge it
/// selects into, and a label only first or right after a terminator.
#[verifier::opaque]
pub open spec fn block_shape(out: Seq<(ValueId, IR)>, g: int) -> bool {
    &&& 0 <= g <= out.len()
    &&& forall|k: int| 0 <= k < g ==> !is_control(#[trigger] out[k].1)
    &&& g < out.len() ==> out[g].1 is Label
    &&& g < out.len() ==> is_terminator(out.last().1)
    &&& forall|k: int| g < k < out.len() && (#[trigger] out[k].1) is Label ==> is_terminator(out[k - 1].1)
    &&& forall|k: int| g <= k < out.len() - 1 && is_terminator(#[trigger] out[k].1) ==> out[k + 1].1 is Label
    &&& forall|k: int| g <= k < out.len() && (#[trigger] out[k].1) is BranchConditional ==> k > g && out[k - 1].1 is SelectionMerge
}

/// One block: a label first and nowhere else, a terminator last and nowhere else, and a
/// conditional branch only right after a merge.
pub open spec fn one_block(seg: Seq<(ValueId, IR)>) -> bool {
    &&& seg.len() >= 1
    &&& seg[0].1 is Label
    &&& forall|k: int| 1 <= k < seg.len() ==> !((#[trigger] seg[k]).1 is Label)
    &&& is_terminator(seg.last().1)
    &&& forall|k: int| 0 <= k < seg.len() - 1 ==> !is_terminator((#[trigger] seg[k]).1)
    &&& forall|k: int| 0 <= k < seg.len() && (#[trigger] seg[k]).1 is BranchConditional ==> k > 0 && seg[k - 1].1 is SelectionMerge
}

/// What ends a block: a return or a branch, or a merge and the conditional branch into it.
pub open spec fn ends_block(term: Seq<(ValueId, IR)>) -> bool {
    ||| term.len() == 1 && (term[0].1 is Return || term[0].1 is Branch)
    ||| term.len() == 2 && term[0].1 is SelectionMerge && term[1].1 is BranchConditional
}

proof fn lemma_labels_concat(a: Seq<(ValueId, IR)>, b: Seq<(ValueId, IR)>)
    ensures
        labels_in(a + b) == labels_in(a) + labels_in(b),
    decreases b.len(),
{
    if b.len() == 0 {
        assert(a + b =~= a);
    } else {
        lemma_labels_concat(a, b.drop_last());
        assert((a + b).drop_last() =~= a + b.drop_last());
        assert((a + b).last() == b.last());
    }
}

proof fn lemma_no_labels(s: Seq<(ValueId, IR)>)
    requires
        forall|k: int| 0 <= k < s.len() ==> !((#[trigger] s[k]).1 is Label),
    ensures
        labels_in(s) == Seq::<LabelId>::empty(),
    decreases s.len(),
{
    if s.len() > 0 {
        lemma_no_labels(s.drop_last());
    }
}

/// Where each entry of a label, a body and an ending stands once they are joined.
proof fn lemma_joined_at(opening: (ValueId, IR), body: Seq<(ValueId, IR)>, term: Seq<(ValueId, IR)>)
    ensures
        (seq![opening] + body + term).len() == 1 + body.len() + term.len(),
        forall|k: int| 0 <= k < 1 + body.len() + term.len() ==> #[trigger] (seq![opening] + body + term)[k] == (
        if k == 0 {
            opening
        } else if k <= body.len() {
            body[k - 1]
        } else {
            term[k - 1 - body.len()]
        }),
{
    let seg = seq![opening] + body + term;
    assert forall|k: int| 0 <= k < 1 + body.len() + term.len() implies #[trigger] seg[k] == (if k == 0 {
        opening
    } else if k <= body.len() {
        body[k - 1]
    } else {
        term[k - 1 - body.len()]
    }) by {
        if k <= body.len() {
            assert(seg[k] == (seq![opening] + body)[k]);
        }
    }
}

/// A label, instructions outside control flow, and what ends a block make one block.
#[verifier::spinoff_prover]
proof fn lemma_one_block(opening: (ValueId, IR), body: Seq<(ValueId, IR)>, term: Seq<(ValueId, IR)>)
    requires
        opening.1 is Label,
        forall|k: int| 0 <= k < body.len() ==> !is_control((#[trigger] body[k]).1),
        ends_block(term),
    ensures
        one_block(seq![opening] + body + term),
{
    let seg = seq![opening] + body + term;
    let m = body.len();
    lemma_joined_at(opening, body, term);
    assert forall|k: int| 1 <= k < seg.len() implies !((#[trigger] seg[k]).1 is Label) by {
        if k <= m {
            assert(!is_control(body[k - 1].1));
        }
    }
    assert forall|k: int| 0 <= k < seg.len() - 1 implies !is_terminator((#[trigger] seg[k]).1) by {
        if 1 <= k <= m {
            assert(!is_control(body[k - 1].1));
        }
    }
    assert forall|k: int| 0 <= k < seg.len() && (#[trigger] seg[k]).1 is BranchConditional implies k > 0
        && seg[k - 1].1 is SelectionMerge by {
        if 1 <= k <= m {
            assert(!is_control(body[k - 1].1));
        } else if k > m {
            assert(seg[k - 1] == term[0]);
        }
    }
    assert(seg.last() == seg[seg.len() - 1]);
}

/// A block's labels are its opening label alone.
proof fn lemma_one_block_labels(opening: (ValueId, IR), body: Seq<(ValueId, IR)>, term: Seq<(ValueId, IR)>)
    requires
        opening.1 is Label,
        forall|k: int| 0 <= k < body.len() ==> !is_control((#[trigger] body[k]).1),
        ends_block(term),
    ensures
        labels_in(seq![opening] + body + term) == seq![opening.1->label],
{
    let head = seq![opening] + body;
    lemma_labels_concat(seq![opening], body);
    lemma_labels_concat(head, term);
    lemma_no_labels(body);
    assert forall|k: int| 0 <= k < term.len() implies !((#[trigger] term[k]).1 is Label) by {}
    lemma_no_labels(term);
    assert(labels_in(seq![opening]) == seq![opening.1->label]) by {
        reveal_with_fuel(labels_in, 2);
        assert(seq![opening].drop_last() =~= Seq::<(ValueId, IR)>::empty());
        assert(seq![opening].last() == opening);
    }
    assert(labels_in(head + term) =~= seq![opening.1->label]);
}

/// Instructions outside control flow alone have the shape, with no block.
proof fn lemma_shape_start(out: Seq<(ValueId, IR)>)
    requires
        forall|k: int| 0 <= k < out.len() ==> !is_control(#[trigger] out[k].1),
    ensures
        block_shape(out, out.len() as int),
{
    reveal(block_shape);
}

/// A block appended after blocks keeps the shape.
#[verifier::spinoff_prover]
proof fn lemma_block_appended(result: Seq<(ValueId, IR)>, g: int, seg: Seq<(ValueId, IR)>)
    requires
        block_shape(result, g),
        one_block(seg),
    ensures
        block_shape(result + seg, g),
{
    reveal(block_shape);
    let out = result + seg;
    let n = result.len();
    assert forall|k: int| 0 <= k < g implies !is_control(#[trigger] out[k].1) by {
        assert(out[k] == result[k]);
    }
    assert(out.last() == seg.last());
    assert forall|k: int| g < k < out.len() && (#[trigger] out[k].1) is Label implies is_terminator(out[k - 1].1) by {
        if k < n {
            assert(out[k] == result[k] && out[k - 1] == result[k - 1]);
        } else if k == n {
            assert(out[k - 1] == result[k - 1]);
        } else {
            assert(out[k] == seg[k - n]);
        }
    }
    assert forall|k: int| g <= k < out.len() - 1 && is_terminator(#[trigger] out[k].1) implies out[k + 1].1 is Label by {
        if k < n - 1 {
            assert(out[k] == result[k] && out[k + 1] == result[k + 1]);
        } else if k == n - 1 {
            assert(out[k + 1] == seg[0]);
        } else {
            assert(out[k] == seg[k - n]);
        }
    }
    assert forall|k: int| g <= k < out.len() && (#[trigger] out[k].1) is BranchConditional implies k > g && out[k
        - 1].1 is SelectionMerge by {
        if k < n {
            assert(out[k] == result[k] && out[k - 1] == result[k - 1]);
        } else {
            assert(out[k] == seg[k - n]);
            if k > n {
                assert(out[k - 1] == seg[k - 1 - n]);
            }
        }
    }
    if g < n {
        assert(out[g] == result[g]);
    } else {
        assert(out[g] == seg[0]);
    }
}

/// Lays `nodes` out in blocks: the globals first, in the order given, and then each block of
/// the module in its order, opened by its label, holding the instructions recorded in it in
/// the order given, and ended by its terminator; a conditional branch is preceded by the
/// merge it selects into. Instructions of a block that was never placed are left out.
#[verifier::spinoff_prover]
#[verifier::rlimit(80)]
pub fn layout_blocks(module: &Module, nodes: Vec<(ValueId, IR)>, next_id: &mut u32) -> (r: Option<Vec<(ValueId, IR)>>)
    requires
        forall|k: int| 0 <= k < nodes@.len() ==> (#[trigger] nodes@[k]).0.0 < *old(next_id),
    ensures
        *final(next_id) >= *old(next_id),
        r is None ==> *old(next_id) + 3 * module.block_list().len() > u32::MAX,
        r matches Some(out) ==> {
            &&& forall|k: int| 0 <= k < out@.len() ==> (#[trigger] out@[k]).0.0 < *final(next_id)
            &&& forall|k: int| 0 <= k < out@.len() && (#[trigger] out@[k]).0.0 >= *old(next_id) ==> is_control(out@[k].1)
            &&& forall|k: int|
                0 <= k < out@.len() && (#[trigger] out@[k]).0.0 < *old(next_id) ==> exists|j: int|
                    0 <= j < nodes@.len() && nodes@[j] == out@[k]
        },
        r matches Some(out) ==> (forall|k: int| 0 <= k < nodes@.len() ==> !is_control((#[trigger] nodes@[k]).1)) ==> (
        exists|g: int| block_shape(out@, g)) && labels_in(out@) == block_labels(module.block_list()),
{
    let ghost base = *next_id;
    let ghost all = nodes@;
    let blocks = module.blocks();
    let mut globals: Vec<(ValueId, IR)> = Vec::new();
    let mut buckets: Vec<Vec<(ValueId, IR)>> = Vec::new();
    let mut b: usize = 0;
    while b < blocks.len()
        invariant
            b <= blocks@.len(),
            buckets@.len() == b,
            forall|j: int| 0 <= j < b ==> (#[trigger] buckets@[j])@.len() == 0,
        decreases blocks@.len() - b,
    {
        buckets.push(Vec::new());
        b = b + 1;
    }
    let mut rest = reversed(nodes);
    while rest.len() > 0
        invariant
            buckets@.len() == blocks@.len(),
            forall|i: int| 0 <= i < rest@.len() ==> #[trigger] rest@[i] == all[all.len() - 1 - i],
            rest@.len() <= all.len(),
            forall|k: int| 0 <= k < globals@.len() ==> exists|j: int| 0 <= j < all.len() && all[j] == #[trigger] globals@[k],
            forall|q: int| 0 <= q < buckets@.len() ==> drawn_from(all, #[trigger] buckets@[q]@),
        decreases rest@.len(),
    {
        let ghost at = all.len() - rest@.len();
        let (id, ir) = rest.pop().unwrap();
        assert((id, ir) == all[at]);
        let global = is_global(&ir);
        let place = if global {
            None
        } else {
            match module.block_of(id) {
                Some(label) => Some(block_index(blocks, label)),
                None => None,
            }
        };
        match place {
            None => {
                globals.push((id, ir));
            },
            Some(None) => {},
            Some(Some(q)) => {
                let ghost before = buckets@;
                let mut bucket = buckets.remove(q);
                bucket.push((id, ir));
                buckets.insert(q, bucket);
                proof {
                    assert forall|qq: int| 0 <= qq < buckets@.len() implies drawn_from(all, #[trigger] buckets@[qq]@) by {
                        if qq != q {
                            assert(buckets@[qq] == before[qq]);
                        } else {
                            assert forall|k: int| 0 <= k < buckets@[qq]@.len() implies exists|j: int|
                                0 <= j < all.len() && all[j] == #[trigger] buckets@[qq]@[k] by {
                                if k < before[qq]@.len() {
                                    assert(buckets@[qq]@[k] == before[qq]@[k]);
                                } else {
                                    assert(buckets@[qq]@[k] == all[at]);
                                }
                            }
                        }
                    }
                }
            },
        }
    }
    let mut result = globals;
    let ghost g = result@.len() as int;
    let ghost clean = forall|k: int| 0 <= k < all.len() ==> !is_control((#[trigger] all[k]).1);
    proof {
        if clean {
            assert forall|k: int| 0 <= k < result@.len() implies !is_control(#[trigger] result@[k].1) by {
                let j = choose|j: int| 0 <= j < all.len() && all[j] == result@[k];
                assert(!is_control(all[j].1));
            }
        }
        if clean {
            lemma_shape_start(result@);
            lemma_no_labels(result@);
        }
    }
    let ghost unreversed = buckets@;

    let mut buckets = reversed(buckets);
    proof {
        assert forall|q: int| 0 <= q < buckets@.len() implies drawn_from(all, #[trigger] buckets@[q]@) by {
            let qq = unreversed.len() - 1 - q;
            assert(buckets@[q] == unreversed[qq]);
        }
        assert(forall|j: int| 0 <= j < all.len() ==> (#[trigger] all[j]).0.0 < base);
    }
    let mut b: usize = 0;
    while b < blocks.len()
        invariant
            b <= blocks@.len(),
            buckets@.len() == blocks@.len() - b,
            *next_id >= base,
            *next_id <= base + 3 * b,
            base == *old(next_id),
            forall|k: int| 0 <= k < result@.len() ==> (#[trigger] result@[k]).0.0 < *next_id,
            forall|k: int| 0 <= k < result@.len() && (#[trigger] result@[k]).0.0 >= base ==> is_control(result@[k].1),
            forall|k: int|
                0 <= k < result@.len() && (#[trigger] result@[k]).0.0 < base ==> exists|j: int|
                    0 <= j < all.len() && all[j] == result@[k],
            forall|q: int| 0 <= q < buckets@.len() ==> drawn_from(all, #[trigger] buckets@[q]@),
            forall|j: int| 0 <= j < all.len() ==> (#[trigger] all[j]).0.0 < base,
            clean == forall|k: int| 0 <= k < all.len() ==> !is_control((#[trigger] all[k]).1),
            blocks@ == module.block_list(),
            result@.len() >= g,
            clean ==> block_shape(result@, g),
            clean ==> labels_in(result@) == block_labels(blocks@).take(b as int),
        decreases blocks@.len() - b,
    {
        let block = blocks[b];
        let ghost block_start = result@;
        if *next_id == u32::MAX {
            return None;
        }
        let label_id = alloc_id(next_id);
        result.push((label_id, IR::Label { label: block.label }));
        let ghost before_pop = buckets@;
        let mut bucket = buckets.pop().unwrap();
        let ghost bucket_v = bucket@;
        proof {
            assert forall|q: int| 0 <= q < buckets@.len() implies drawn_from(all, #[trigger] buckets@[q]@) by {
                assert(buckets@[q] == before_pop[q]);
            }
            assert(drawn_from(all, before_pop[before_pop.len() - 1]@));
            assert(bucket_v == before_pop[before_pop.len() - 1]@);
        }
        let ghost before = result@;
        let ghost opening = result@.last();
        result.append(&mut bucket);
        proof {
            assert forall|k: int| 0 <= k < result@.len() implies (#[trigger] result@[k]).0.0 < *next_id by {
                if k >= before.len() {
                    assert(before_pop[before_pop.len() - 1]@[k - before.len()] == bucket_v[k - before.len()]);
                    let p = choose|j: int| 0 <= j < all.len() && all[j] == bucket_v[k - before.len()];
                    assert(all[p].0.0 < base);
                }
            }
            assert forall|k: int|
                0 <= k < result@.len() && (#[trigger] result@[k]).0.0 < base implies exists|j: int|
                0 <= j < all.len() && all[j] == result@[k] by {
                if k >= before.len() {
                    assert(result@[k] == bucket_v[k - before.len()]);
                    assert(before_pop[before_pop.len() - 1]@[k - before.len()] == bucket_v[k - before.len()]);
                }
            }
            assert forall|k: int| 0 <= k < result@.len() && (#[trigger] result@[k]).0.0 >= base implies is_control(
                result@[k].1,
            ) by {
                if k >= before.len() {
                    assert(before_pop[before_pop.len() - 1]@[k - before.len()] == bucket_v[k - before.len()]);
                    let p = choose|j: int| 0 <= j < all.len() && all[j] == bucket_v[k - before.len()];
                    assert(all[p].0.0 < base);
                }
            }
        }
        let ghost after_body = result@;
        let ghost mut term: Seq<(ValueId, IR)> = Seq::empty();
        match block.terminator {
            Terminator::Return => {
                if *next_id == u32::MAX {
                    return None;
                }
                let id = alloc_id(next_id);
                result.push((id, IR::Return));
                proof {
                    term = seq![(id, IR::Return)];
                }
            },
            Terminator::Branch { target } => {
                if *next_id == u32::MAX {
                    return None;
                }
                let id = alloc_id(next_id);
                result.push((id, IR::Branch { target }));
                proof {
                    term = seq![(id, IR::Branch { target })];
                }
            },
            Terminator::BranchConditional { condition, merge, true_label, false_label } => {
                if *next_id == u32::MAX {
                    return None;
                }
                let id = alloc_id(next_id);
                result.push((id, IR::SelectionMerge { merge }));
                if *next_id == u32::MAX {
                    return None;
                }
                let second = alloc_id(next_id);
                result.push((second, IR::BranchConditional { condition, true_label, false_label }));
                proof {
                    term = seq![(id, IR::SelectionMerge { merge }), (second, IR::BranchConditional { condition, true_label, false_label })];
                }
            },
        }
        proof {
            assert(result@ =~= after_body + term);
            assert(ends_block(term));
            assert(after_body =~= block_start.push(opening) + bucket_v);
            assert(result@ =~= block_start + (seq![opening] + bucket_v + term));
            if clean {
                assert forall|k: int| 0 <= k < bucket_v.len() implies !is_control((#[trigger] bucket_v[k]).1) by {
                    assert(before_pop[before_pop.len() - 1]@[k] == bucket_v[k]);
                    let j = choose|j: int| 0 <= j < all.len() && all[j] == bucket_v[k];
                    assert(!is_control(all[j].1));
                }
                lemma_one_block(opening, bucket_v, term);
                lemma_one_block_labels(opening, bucket_v, term);
                lemma_block_appended(block_start, g, seq![opening] + bucket_v + term);
                lemma_labels_concat(block_start, seq![opening] + bucket_v + term);
                assert(block_labels(blocks@).take(b + 1) =~= block_labels(blocks@).take(b as int).push(block.label));
            }
        }
        b = b + 1;
    }
    proof {
        if clean {
            assert(block_labels(blocks@).take(b as int) =~= block_labels(blocks@));
            assert(block_shape(result@, g));
            assert(labels_in(result@) == block_labels(module.block_list()));
        }
        assert(clean <== forall|k: int| 0 <= k < nodes@.len() ==> !is_control((#[trigger] nodes@[k]).1));
        assert((forall|k: int| 0 <= k < nodes@.len() ==> !is_control((#[trigger] nodes@[k]).1)) ==> (
        exists|g: int| block_shape(result@, g)));
        assert((forall|k: int| 0 <= k < nodes@.len() ==> !is_control((#[trigger] nodes@[k]).1)) ==> 
        labels_in(result@) == block_labels(module.block_list()));
    }
    Some(result)
}

/// Every entry of `part` is one of `all`.
pub open spec fn drawn_from(all: Seq<(ValueId, IR)>, part: Seq<(ValueId, IR)>) -> bool {
    forall|k: int| 0 <= k < part.len() ==> exists|j: int| 0 <= j < all.len() && all[j] == #[trigger] part[k]
}

/// Where the block `label` stands among `blocks`.
fn block_index(blocks: &Vec<Block>, label: LabelId) -> (r: Option<usize>)
    ensures
        r matches Some(q) ==> q < blocks@.len() && blocks@[q as int].label == label,
        r is None ==> forall|q: int| 0 <= q < blocks@.len() ==> (#[trigger] blocks@[q]).label != label,
{
    let mut i: usize = 0;
    while i < blocks.len()
        invariant
            i <= blocks@.len(),
            forall|q: int| 0 <= q < i ==> (#[trigger] blocks@[q]).label != label,
        decreases blocks@.len() - i,
    {
        if blocks[i].label == label {
            return Some(i);
        }
        i = i + 1;
    }
    None
}

/// Why a module did not compile.
#[derive(Debug, Clone, Copy, PartialEq, Eq, Structural)]
pub enum CompileError {
    /// The ids a program's instructions are numbered with ran out.
    IdsExhausted,
    /// An instruction names an access that is no access constant.
    MissingAccess,
    /// A descriptor write, or a draw or dispatch that consumes them, does not fit what its
    /// pipeline declares.
    InvalidDescriptors,
}

/// What a terminator branches on, where it branches conditionally.
pub open spec fn condition_of(terminator: Terminator) -> Option<ValueId> {
    match terminator {
        Terminator::BranchConditional { condition, .. } => Some(condition),
        _ => None,
    }
}

/// What the conditional branches ending `blocks` branch on, in order.
pub open spec fn conditions_of(blocks: Seq<Block>) -> Seq<ValueId>
    decreases blocks.len(),
{
    if blocks.len() == 0 {
        Seq::empty()
    } else {
        match condition_of(blocks.last().terminator) {
            Some(c) => conditions_of(blocks.drop_last()).push(c),
            None => conditions_of(blocks.drop_last()),
        }
    }
}

/// Some block of `blocks` branches on `c`.
pub open spec fn is_condition(blocks: Seq<Block>, c: ValueId) -> bool {
    exists|b: int| 0 <= b < blocks.len() && condition_of((#[trigger] blocks[b]).terminator) == Some(c)
}

/// What `terminator` branches on, if anything, is below `bound`.
pub open spec fn condition_below(terminator: Terminator, bound: int) -> bool {
    match condition_of(terminator) {
        Some(c) => c.0 < bound,
        None => true,
    }
}

impl Module {
    /// The module can be compiled from `roots`: every instruction reads only values recorded
    /// before it, and every root and every branch condition is a recorded value.
    pub open spec fn compilable(&self, roots: Seq<ValueId>) -> bool {
        &&& self.wf()
        &&& defined_before_use(self.instrs())
        &&& forall|k: int| 0 <= k < roots.len() ==> (#[trigger] roots[k]).0 < self.instrs().len()
        &&& forall|k: int|
            0 <= k < self.block_list().len() ==> condition_below((#[trigger] self.block_list()[k]).terminator, self.instrs().len() as int)
    }

    /// Whether the module can be compiled from `roots`: each instruction reads only values
    /// recorded before it, and every root and every branch condition is a recorded value.
    pub fn is_compilable(&self, roots: &[ValueId]) -> (r: bool)
        requires
            self.wf(),
        ensures
            r == self.compilable(roots@),
    {
        let instrs = self.instructions();
        let n = instrs.len();
        let mut i: usize = 0;
        while i < n
            invariant
                i <= n,
                n == instrs@.len(),
                instrs@ == self.instrs(),
                forall|a: int, j: int|
                    0 <= a < i && 0 <= j < operands_spec(instrs@[a]).len() ==> {
                        let o = #[trigger] operands_spec(instrs@[a])[j];
                        o.0 < n && (o.0 < a || operands_spec(instrs@[o.0 as int]).len() == 0)
                    },
            decreases n - i,
        {
            let operands = instrs[i].visit_operands();
            let mut j: usize = 0;
            while j < operands.len()
                invariant
                    j <= operands@.len(),
                    i < n,
                    n == instrs@.len(),
                    instrs@ == self.instrs(),
                    operands@ == operands_spec(instrs@[i as int]),
                    forall|q: int| 0 <= q < j ==> {
                        let o = #[trigger] operands@[q];
                        o.0 < n && (o.0 < i || operands_spec(instrs@[o.0 as int]).len() == 0)
                    },
                decreases operands@.len() - j,
            {
                let o = operands[j].0 as usize;
                let fine = o < n && (o < i || instrs[o].visit_operands().len() == 0);
                if !fine {
                    proof {
                        assert(!defined_before_use(self.instrs())) by {
                            let oo = operands_spec(self.instrs()[i as int])[j as int];
                            assert(oo == operands@[j as int]);
                        }
                    }
                    return false;
                }
                j = j + 1;
            }
            i = i + 1;
        }
        let mut k: usize = 0;
        while k < roots.len()
            invariant
                k <= roots@.len(),
                n == self.instrs().len(),
                forall|q: int| 0 <= q < k ==> (#[trigger] roots@[q]).0 < n,
            decreases roots@.len() - k,
        {
            if roots[k].0 as usize >= n {
                return false;
            }
            k = k + 1;
        }
        let blocks = self.blocks();
        let mut b: usize = 0;
        while b < blocks.len()
            invariant
                b <= blocks@.len(),
                blocks@ == self.block_list(),
                n == self.instrs().len(),
                forall|q: int| 0 <= q < b ==> condition_below((#[trigger] blocks@[q]).terminator, n as int),
            decreases blocks@.len() - b,
        {
            if let Terminator::BranchConditional { condition, .. } = blocks[b].terminator {
                if condition.0 as usize >= n {
                    return false;
                }
            }
            b = b + 1;
        }
        true
    }

    /// What the module's selections branch on.
    fn branch_conditions(&self) -> (r: Vec<ValueId>)
        ensures
            r@ == conditions_of(self.block_list()),
            forall|k: int| 0 <= k < r@.len() ==> #[trigger] is_condition(self.block_list(), r@[k]),
    {
        let blocks = self.blocks();
        let mut out: Vec<ValueId> = Vec::new();
        let mut i: usize = 0;
        while i < blocks.len()
            invariant
                i <= blocks@.len(),
                blocks@ == self.block_list(),
                out@ == conditions_of(blocks@.take(i as int)),
                forall|k: int| 0 <= k < out@.len() ==> #[trigger] is_condition(self.block_list(), out@[k]),
            decreases blocks@.len() - i,
        {
            proof {
                assert(blocks@.take(i + 1).drop_last() =~= blocks@.take(i as int));
            }
            if let Terminator::BranchConditional { condition, .. } = blocks[i].terminator {
                out.push(condition);
                proof {
                    assert(condition_of(self.block_list()[i as int].terminator) == Some(condition));
                    assert(is_condition(self.block_list(), out@[out@.len() - 1]));
                }
            }
            i = i + 1;
        }
        proof {
            assert(blocks@.take(i as int) =~= blocks@);
        }
        out
    }

    /// Lowers the module into a program that reaches `ids`: the instructions they depend on in
    /// an order that respects it, laid out in blocks, with the descriptor accesses resolved,
    /// synchronized, with empty blocks and redundant branches and barriers simplified away,
    /// the globals first, the resources' usages and the draws' and dispatches' state inferred.
    fn lower<P: PipelineBindings>(&self, pipelines: &P, ids: &[ValueId]) -> (r: Result<Program, CompileError>)
        requires
            self.compilable(ids@),
        ensures
            r matches Ok(p) ==> writes_prepared(p.instruction_list()),
            r matches Ok(p) ==> draws_name_bound_pipelines(p.instruction_list()),
            r matches Ok(p) ==> draws_run_with_shapes(self.instrs(), p.instruction_list()),
    {
        let instrs = self.instructions();
        let mut roots: Vec<ValueId> = Vec::new();
        let mut i: usize = 0;
        while i < ids.len()
            invariant
                i <= ids@.len(),
                forall|k: int| 0 <= k < ids@.len() ==> (#[trigger] ids@[k]).0 < instrs@.len(),
                forall|k: int| 0 <= k < roots@.len() ==> (#[trigger] roots@[k]).0 < instrs@.len(),
            decreases ids@.len() - i,
        {
            roots.push(ids[i]);
            i = i + 1;
        }
        let conditions = self.branch_conditions();
        let mut i: usize = 0;
        while i < conditions.len()
            invariant
                i <= conditions@.len(),
                self.compilable(ids@),
                instrs@ == self.instrs(),
                forall|k: int| 0 <= k < conditions@.len() ==> #[trigger] is_condition(self.block_list(), conditions@[k]),
                forall|k: int| 0 <= k < roots@.len() ==> (#[trigger] roots@[k]).0 < instrs@.len(),
            decreases conditions@.len() - i,
        {
            proof {
                assert(is_condition(self.block_list(), conditions@[i as int]));
                let b = choose|b: int|
                    0 <= b < self.block_list().len() && condition_of((#[trigger] self.block_list()[b]).terminator) == Some(conditions@[i as int]);
                assert(condition_below(self.block_list()[b].terminator, self.instrs().len() as int));
            }
            roots.push(conditions[i]);
            i = i + 1;
        }
        proof {
            self.lemma_ids_valid();
        }
        let mut i: usize = 0;
        while i < instrs.len()
            invariant
                i <= instrs@.len(),
                instrs@.len() < u32::MAX,
                forall|k: int| 0 <= k < roots@.len() ==> (#[trigger] roots@[k]).0 < instrs@.len(),
            decreases instrs@.len() - i,
        {
            if let IR::Type(_) = &instrs[i] {
                roots.push(ValueId(i as u32));
            }
            i = i + 1;
        }
        let mut next_id: u32 = instrs.len() as u32;
        let nodes = topo_sort(instrs, &roots);
        let nodes = match layout_blocks(self, nodes, &mut next_id) {
            Some(nodes) => nodes,
            None => return Err(CompileError::IdsExhausted),
        };
        let nodes = match resolve_descriptor_access(nodes, pipelines, &mut next_id) {
            Some(nodes) => nodes,
            None => return Err(CompileError::IdsExhausted),
        };
        let (nodes, next) = match sync(instrs, nodes, next_id) {
            Ok(synced) => synced,
            Err(e) => return Err(e),
        };
        let mut next_id = next;
        let ghost synced = nodes@;
        let nodes = simplify_cfg(nodes, Ghost(next_id as int));
        proof {
            assert forall|k: int| 0 <= k < synced.len() && orders_writes((#[trigger] synced[k]).1) implies beyond_control_node()(
                synced[k],
            ) by {
                lemma_orders_writes_beyond(synced[k].1);
            }
            lemma_prepared_filter(synced, beyond_control_node());
            assert forall|k: int| 0 <= k < nodes@.len() && orders_writes((#[trigger] nodes@[k]).1) implies beyond_control_node()(
                nodes@[k],
            ) by {
                lemma_orders_writes_beyond(nodes@[k].1);
            }
            lemma_prepared_unfilter(nodes@, beyond_control_node());
        }
        let ghost simplified = nodes@;
        let ghost base = next_id;
        let nodes = match fold_barriers(nodes, &mut next_id) {
            Some(nodes) => nodes,
            None => return Err(CompileError::IdsExhausted),
        };
        proof {
            assert forall|k: int| 0 <= k < simplified.len() && orders_writes((#[trigger] simplified[k]).1) implies not_memory_barrier()(
                simplified[k],
            ) by {}
            lemma_prepared_filter(simplified, not_memory_barrier());
            assert forall|k: int| 0 <= k < nodes@.len() && orders_writes((#[trigger] nodes@[k]).1) implies not_memory_barrier_before(
                base,
            )(nodes@[k]) by {
                if nodes@[k].0.0 >= base {
                    assert(nodes@[k].1 is Constant);
                }
            }
            lemma_prepared_unfilter(nodes@, not_memory_barrier_before(base));
        }
        let ghost folded = nodes@;
        let mut nodes = globals_first(nodes);
        proof {
            lemma_globals_first_prepared(folded);
        }
        let ghost ordered = nodes@;
        infer_usage(instrs, &mut nodes);
        proof {
            assert forall|k: int| 0 <= k < ordered.len() && (orders_writes(ordered[k].1) || orders_writes((#[trigger] nodes@[k]).1)) implies nodes@[k].1 == ordered[k].1 by {
                lemma_usage_keeps_writes(ordered[k].1, nodes@[k].1);
            }
            lemma_prepared_pointwise(ordered, nodes@);
        }
        let ghost widened = nodes@;
        let variable_ids = self.variable_ids();
        let mut slots: Vec<(ValueId, u32)> = Vec::new();
        let mut s: usize = 0;
        while s < variable_ids.len()
            invariant
                s <= variable_ids@.len(),
            decreases variable_ids@.len() - s,
        {
            if s <= u32::MAX as usize {
                slots.push((variable_ids[s], s as u32));
            }
            s = s + 1;
        }
        let nodes = infer(instrs, nodes);
        proof {
            assert forall|k: int| 0 <= k < widened.len() && (orders_writes(widened[k].1) || orders_writes((#[trigger] nodes@[k]).1)) implies nodes@[k].1 == widened[k].1 by {
                lemma_inference_keeps_writes(widened[k].1, nodes@[k].1);
            }
            lemma_prepared_pointwise(widened, nodes@);
        }
        let variables = self.variables().clone();
        Ok(Program::new(nodes, variables, slots))
    }

    /// Compiles the module into a program that reaches `id`.
    pub fn compile<P: PipelineBindings>(&self, pipelines: &P, id: ValueId) -> (r: Result<Program, CompileError>)
        requires
            self.compilable(seq![id]),
        ensures
            r matches Ok(p) ==> forall|k: int|
                0 <= k < p.instruction_list().len() ==> #[trigger] write_is_sound_spec(p.instruction_list(), k),
            r matches Ok(p) ==> forall|k: int|
                0 <= k < p.instruction_list().len() ==> !#[trigger] consumes_without_pipeline(p.instruction_list(), k),
            r matches Ok(p) ==> writes_prepared(p.instruction_list()),
            r matches Ok(p) ==> draws_name_bound_pipelines(p.instruction_list()),
            r matches Ok(p) ==> draws_run_with_shapes(self.instrs(), p.instruction_list()),
    {
        let ids = [id];
        proof {
            assert(ids@ =~= seq![id]);
        }
        self.compile_all(pipelines, &ids)
    }

    /// Compiles the module into one program that reaches every one of `ids`, and checks its
    /// descriptor writes against the pipelines that consume them. In the program every clear,
    /// blit and copy into an image comes after a barrier that brings the image into the layout
    /// the write needs, and every draw runs with the pipeline bound and the state set in its
    /// pass over what its region draws into.
    pub fn compile_all<P: PipelineBindings>(&self, pipelines: &P, ids: &[ValueId]) -> (r: Result<Program, CompileError>)
        requires
            self.compilable(ids@),
        ensures
            r matches Ok(p) ==> forall|k: int|
                0 <= k < p.instruction_list().len() ==> #[trigger] write_is_sound_spec(p.instruction_list(), k),
            r matches Ok(p) ==> forall|k: int|
                0 <= k < p.instruction_list().len() ==> !#[trigger] consumes_without_pipeline(p.instruction_list(), k),
            r matches Ok(p) ==> writes_prepared(p.instruction_list()),
            r matches Ok(p) ==> draws_name_bound_pipelines(p.instruction_list()),
            r matches Ok(p) ==> draws_run_with_shapes(self.instrs(), p.instruction_list()),
    {
        let program = match self.lower(pipelines, ids) {
            Ok(program) => program,
            Err(e) => return Err(e),
        };
        match analyze_descriptors(program.instructions(), pipelines) {
            Ok(()) => Ok(program),
            Err(e) => Err(e),
        }
    }
}

} // verus!
