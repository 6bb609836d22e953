use vstd::prelude::*;

use crate::access::{sampled_by_spec, Access};
use crate::compile::{alloc_id, CompileError};
use crate::ids::{PipelineId, ValueId};
use crate::ir::{
    Constant, Descriptor, IR, MAX_RESOLVE_DEPTH, UnderlyingObject, underlying_object, underlying_object_spec,
    DESCRIPTOR_TYPE_COMBINED_IMAGE_SAMPLER, DESCRIPTOR_TYPE_SAMPLED_IMAGE,
};

verus! {

/// Vulkan's raw descriptor types, besides the two [`Descriptor`] names.
pub const DESCRIPTOR_TYPE_SAMPLER: i32 = 0;
pub const DESCRIPTOR_TYPE_STORAGE_IMAGE: i32 = 3;
pub const DESCRIPTOR_TYPE_UNIFORM_TEXEL_BUFFER: i32 = 4;
pub const DESCRIPTOR_TYPE_STORAGE_TEXEL_BUFFER: i32 = 5;
pub const DESCRIPTOR_TYPE_UNIFORM_BUFFER: i32 = 6;
pub const DESCRIPTOR_TYPE_STORAGE_BUFFER: i32 = 7;
pub const DESCRIPTOR_TYPE_INPUT_ATTACHMENT: i32 = 10;
pub const DESCRIPTOR_TYPE_ACCELERATION_STRUCTURE: i32 = 1000150000;

/// One binding a pipeline's shaders declare, as reflected from them.
#[derive(Debug, Clone, Copy, PartialEq, Eq, Structural)]
pub struct DescriptorBinding {
    pub set: u32,
    pub binding: u32,
    pub descriptor_type: i32,
    pub count: u32,
    pub variable_count: bool,
    /// Every pipeline stage whose module declares this binding.
    pub stages: u32,
    /// The descriptor memory operations in the entry point's static call tree.
    pub access: Access,
}

/// Where the analyzer reads what a program's pipelines declare, as their shaders were
/// reflected. `None` from [`Self::bindings`] means this source knows nothing about that
/// pipeline: descriptor-free modules still compile, but a descriptor write needs reflected
/// bindings to infer its access.
pub trait PipelineBindings {
    fn bindings(&self, pipeline: PipelineId) -> Option<Vec<DescriptorBinding>>;

    /// The set handed to the pipeline whole. Nothing in the module may write into it.
    fn bindless_set(&self, pipeline: PipelineId) -> Option<u32>;
}

/// Compiles a descriptor-free module without a graph to ask about its pipelines.
pub struct Unchecked;

impl PipelineBindings for Unchecked {
    fn bindings(&self, pipeline: PipelineId) -> (r: Option<Vec<DescriptorBinding>>) {
        None
    }

    fn bindless_set(&self, pipeline: PipelineId) -> (r: Option<u32>) {
        None
    }
}

/// A descriptor of this kind can be written where a pipeline declares `descriptor_type`:
/// an image where it samples, stores to or reads an input attachment, an image with its
/// sampler where it samples through a combined image sampler.
pub open spec fn supports_type_spec(descriptor: Descriptor, descriptor_type: i32) -> bool {
    match descriptor {
        Descriptor::SampledImage { .. } => descriptor_type == DESCRIPTOR_TYPE_SAMPLED_IMAGE || descriptor_type
            == DESCRIPTOR_TYPE_STORAGE_IMAGE || descriptor_type == DESCRIPTOR_TYPE_INPUT_ATTACHMENT,
        Descriptor::CombinedImageSampler { .. } => descriptor_type == DESCRIPTOR_TYPE_COMBINED_IMAGE_SAMPLER,
    }
}

pub fn supports_type(descriptor: &Descriptor, descriptor_type: i32) -> (r: bool)
    ensures
        r == supports_type_spec(*descriptor, descriptor_type),
{
    match descriptor {
        Descriptor::SampledImage { .. } => descriptor_type == DESCRIPTOR_TYPE_SAMPLED_IMAGE || descriptor_type
            == DESCRIPTOR_TYPE_STORAGE_IMAGE || descriptor_type == DESCRIPTOR_TYPE_INPUT_ATTACHMENT,
        Descriptor::CombinedImageSampler { .. } => descriptor_type == DESCRIPTOR_TYPE_COMBINED_IMAGE_SAMPLER,
    }
}

/// `nodes` holds an access constant for `bits` under `id`.
pub open spec fn holds_access(nodes: Seq<(ValueId, IR)>, id: ValueId, bits: u32) -> bool {
    exists|j: int| 0 <= j < nodes.len() && (#[trigger] nodes[j]).0 == id && nodes[j].1 == IR::Constant(
        Constant::Access(Access(bits)),
    )
}

/// Where `ir` is an access constant, `ids` lists its bits.
pub open spec fn listed_bits(ir: IR, ids: Seq<(u32, ValueId)>) -> bool {
    match ir {
        IR::Constant(Constant::Access(a)) => exists|k: int| 0 <= k < ids.len() && (#[trigger] ids[k]).0 == a.0,
        _ => true,
    }
}

/// The access constants of `nodes`, by their bits, the last one listed for each.
fn access_ids(nodes: &Vec<(ValueId, IR)>) -> (r: Vec<(u32, ValueId)>)
    ensures
        forall|k: int| 0 <= k < r@.len() ==> holds_access(nodes@, (#[trigger] r@[k]).1, r@[k].0),
        forall|j: int|
            0 <= j < nodes@.len() ==> listed_bits((#[trigger] nodes@[j]).1, r@),
{
    let mut ids: Vec<(u32, ValueId)> = Vec::new();
    let mut i: usize = 0;
    while i < nodes.len()
        invariant
            i <= nodes@.len(),
            forall|k: int| 0 <= k < ids@.len() ==> holds_access(nodes@, (#[trigger] ids@[k]).1, ids@[k].0),
            forall|j: int|
                0 <= j < i ==> listed_bits((#[trigger] nodes@[j]).1, ids@),
        decreases nodes@.len() - i,
    {
        if let IR::Constant(Constant::Access(a)) = &nodes[i].1 {
            let bits = a.0;
            let id = nodes[i].0;
            let ghost before = ids@;
            let mut k: usize = 0;
            let mut found = false;
            while k < ids.len()
                invariant
                    k <= ids@.len(),
                    ids@.len() == before.len(),
                    forall|q: int| 0 <= q < ids@.len() ==> (#[trigger] ids@[q]) == before[q] || (ids@[q] == (bits, id)),
                    forall|q: int| 0 <= q < ids@.len() ==> (#[trigger] ids@[q]).0 == before[q].0,
                    found ==> exists|q: int| 0 <= q < ids@.len() && (#[trigger] ids@[q]).0 == bits,
                decreases ids@.len() - k,
            {
                if ids[k].0 == bits {
                    ids.set(k, (bits, id));
                    found = true;
                    proof {
                        assert(ids@[k as int].0 == bits);
                    }
                }
                k = k + 1;
            }
            let ghost mid = ids@;
            if !found {
                ids.push((bits, id));
                proof {
                    assert(ids@[ids@.len() - 1].0 == bits);
                }
            }
            proof {
                assert(exists|q: int| 0 <= q < ids@.len() && (#[trigger] ids@[q]).0 == bits);
                assert forall|q: int| 0 <= q < mid.len() implies (#[trigger] ids@[q]).0 == before[q].0 by {
                    assert(ids@[q] == mid[q]);
                }
            }
            proof {
                assert forall|j: int| 0 <= j < i + 1 implies listed_bits((#[trigger] nodes@[j]).1, ids@) by {
                    if j < i {
                        assert(listed_bits(nodes@[j].1, before));
                        if let IR::Constant(Constant::Access(a)) = nodes@[j].1 {
                            let k0 = choose|k: int| 0 <= k < before.len() && (#[trigger] before[k]).0 == a.0;
                            assert(ids@[k0].0 == before[k0].0);
                        }
                    }
                }
                assert forall|q: int| 0 <= q < ids@.len() implies holds_access(nodes@, (#[trigger] ids@[q]).1, ids@[q].0) by {
                    if ids@[q] == (bits, id) {
                        assert(nodes@[i as int].0 == id);
                    } else {
                        assert(ids@[q] == before[q]);
                    }
                }
            }
        }
        i = i + 1;
    }
    ids
}

/// A draw, indexed draw, opaque call or dispatch: an instruction that consumes the descriptors
/// standing in its pass.
pub open spec fn consumes_descriptors(ir: IR) -> bool {
    ir is Draw || ir is DrawIndexed || ir is CallOpaque || ir is Dispatch
}

fn is_consumer(ir: &IR) -> (r: bool)
    ensures
        r == consumes_descriptors(*ir),
{
    matches!(ir, IR::Draw { .. } | IR::DrawIndexed { .. } | IR::CallOpaque { .. } | IR::Dispatch { .. })
}

/// Whether a region is open before the instruction at `i` of `nodes`.
pub open spec fn open_before(nodes: Seq<(ValueId, IR)>, i: int) -> bool
    decreases i,
{
    if i <= 0 || i > nodes.len() {
        false
    } else if nodes[i - 1].1 is BeginRendering || nodes[i - 1].1 is BeginCompute {
        true
    } else if nodes[i - 1].1 is EndRendering || nodes[i - 1].1 is EndCompute {
        false
    } else {
        open_before(nodes, i - 1)
    }
}

/// The pipeline bound before the instruction at `i` of `nodes`: the last one bound since a
/// region last opened or closed.
pub open spec fn bound_before(nodes: Seq<(ValueId, IR)>, i: int) -> Option<PipelineId>
    decreases i,
{
    if i <= 0 || i > nodes.len() {
        None
    } else if nodes[i - 1].1 is BeginRendering || nodes[i - 1].1 is BeginCompute || nodes[i - 1].1 is EndRendering
        || nodes[i - 1].1 is EndCompute {
        None
    } else if let IR::BindPipeline { pipeline, .. } = nodes[i - 1].1 {
        Some(pipeline)
    } else {
        bound_before(nodes, i - 1)
    }
}

/// The set and binding a descriptor write writes.
pub open spec fn write_key(ir: IR) -> Option<(u32, u32)> {
    match ir {
        IR::WriteDescriptor { set, binding, .. } => Some((set, binding)),
        _ => None,
    }
}

/// The descriptor write at `w` still stands at `c`: it was made in an open region, and from it
/// to `c` no region opens or closes and nothing writes its set and binding again.
pub open spec fn stands(nodes: Seq<(ValueId, IR)>, w: int, c: int) -> bool {
    &&& 0 <= w < c <= nodes.len()
    &&& write_key(nodes[w].1) is Some
    &&& open_before(nodes, w)
    &&& forall|j: int|
        w < j < c ==> !(#[trigger] nodes[j].1 is BeginRendering || nodes[j].1 is BeginCompute || nodes[j].1 is EndRendering
            || nodes[j].1 is EndCompute) && write_key(nodes[j].1) != write_key(nodes[w].1)
}

/// The binding numbered `bi` among those `answers` holds for the instruction at `c`.
pub open spec fn answer_binding(answers: Seq<Option<Vec<DescriptorBinding>>>, c: int, bi: int) -> Option<DescriptorBinding> {
    match answers[c] {
        Some(bs) => if 0 <= bi < bs@.len() {
            Some(bs@[bi])
        } else {
            None
        },
        None => None,
    }
}

/// Every write standing at a consumer among the first `upto` of `nodes`, whose set and binding
/// a binding the consumer's pipeline declares (as `answers` gives it), is recorded in
/// `resolved` at least at the access the stages of that binding sample it at.
pub open spec fn consumers_resolved(
    nodes: Seq<(ValueId, IR)>,
    answers: Seq<Option<Vec<DescriptorBinding>>>,
    resolved: Seq<(usize, u32)>,
    upto: int,
) -> bool {
    forall|c: int, w: int, bi: int|
        0 <= c < upto && consumes_descriptors(nodes[c].1) && #[trigger] stands(nodes, w, c) && (#[trigger] answer_binding(
            answers,
            c,
            bi,
        ) matches Some(b) && write_key(nodes[w].1) == Some((b.set, b.binding))) ==> has_entry(
            resolved,
            w,
            sampled_by_spec(answer_binding(answers, c, bi)->0.stages),
        )
}

/// How the write at `w` is listed among the writes standing: its set, its binding, and `w`.
pub open spec fn written_entry(nodes: Seq<(ValueId, IR)>, w: int) -> (u32, u32, usize) {
    match nodes[w].1 {
        IR::WriteDescriptor { set, binding, .. } => (set, binding, w as usize),
        _ => (0, 0, w as usize),
    }
}

/// A write standing at `c + 1` before `c` stood at `c`, and the instruction at `c` neither
/// opens nor closes a region nor writes its set and binding.
proof fn lemma_stands_shrink(nodes: Seq<(ValueId, IR)>, w: int, c: int)
    requires
        stands(nodes, w, c + 1),
        w < c,
    ensures
        stands(nodes, w, c),
        !(nodes[c].1 is BeginRendering || nodes[c].1 is BeginCompute || nodes[c].1 is EndRendering || nodes[c].1 is EndCompute),
        write_key(nodes[c].1) != write_key(nodes[w].1),
{
    assert(w < c < c + 1);
    assert(!(nodes[c].1 is BeginRendering || nodes[c].1 is BeginCompute || nodes[c].1 is EndRendering
        || nodes[c].1 is EndCompute) && write_key(nodes[c].1) != write_key(nodes[w].1));
}

/// Where a write stands, its region is still open.
proof fn lemma_stands_open(nodes: Seq<(ValueId, IR)>, w: int, c: int)
    requires
        stands(nodes, w, c),
    ensures
        open_before(nodes, c),
    decreases c - w,
{
    if c == w + 1 {
        assert(open_before(nodes, w));
    } else {
        lemma_stands_shrink(nodes, w, c - 1);
        lemma_stands_open(nodes, w, c - 1);
    }
}

/// `resolved` records the write at `w` at least at the access bits `x`.
pub open spec fn has_entry(resolved: Seq<(usize, u32)>, w: int, x: u32) -> bool {
    exists|q: int| 0 <= q < resolved.len() && (#[trigger] resolved[q]).0 == w && resolved[q].1 & x == x
}

proof fn lemma_entry_bits(a: u32, b: u32, x: u32)
    by (bit_vector)
    ensures
        a & x == x ==> (a | b) & x == x,
        (a | b) & b == b,
        b & b == b,
{
}

/// Merging `bits` for `at` keeps every access recorded and records `bits` for `at`.
proof fn lemma_merge_keeps(old: Seq<(usize, u32)>, new: Seq<(usize, u32)>, at: usize, bits: u32)
    requires
        (exists|i: int|
            0 <= i < old.len() && (#[trigger] old[i]).0 == at && (forall|j: int| 0 <= j < i ==> (#[trigger] old[j]).0 != at)
                && new == old.update(i, (at, old[i].1 | bits))) || ((forall|j: int| 0 <= j < old.len() ==> (#[trigger] old[j]).0
            != at) && new == old.push((at, bits))),
    ensures
        forall|w: int, x: u32| has_entry(old, w, x) ==> #[trigger] has_entry(new, w, x),
        has_entry(new, at as int, bits),
{
    if exists|i: int|
        0 <= i < old.len() && (#[trigger] old[i]).0 == at && (forall|j: int| 0 <= j < i ==> (#[trigger] old[j]).0 != at) && new
            == old.update(i, (at, old[i].1 | bits)) {
        let i = choose|i: int|
            0 <= i < old.len() && (#[trigger] old[i]).0 == at && (forall|j: int| 0 <= j < i ==> (#[trigger] old[j]).0 != at)
                && new == old.update(i, (at, old[i].1 | bits));
        assert forall|w: int, x: u32| has_entry(old, w, x) implies #[trigger] has_entry(new, w, x) by {
            let q = choose|q: int| 0 <= q < old.len() && (#[trigger] old[q]).0 == w && old[q].1 & x == x;
            lemma_entry_bits(old[q].1, bits, x);
            assert(new[q].0 == w && new[q].1 & x == x);
        }
        lemma_entry_bits(old[i].1, bits, bits);
        assert(new[i].0 == at && new[i].1 & bits == bits);
    } else {
        assert forall|w: int, x: u32| has_entry(old, w, x) implies #[trigger] has_entry(new, w, x) by {
            let q = choose|q: int| 0 <= q < old.len() && (#[trigger] old[q]).0 == w && old[q].1 & x == x;
            assert(new[q] == old[q]);
        }
        lemma_entry_bits(0, bits, bits);
        assert(new[old.len() as int].0 == at && new[old.len() as int].1 & bits == bits);
    }
}

/// No two entries of `resolved` are for one write.
pub open spec fn distinct_at(resolved: Seq<(usize, u32)>) -> bool {
    forall|a: int, b: int| 0 <= a < b < resolved.len() ==> (#[trigger] resolved[a]).0 != (#[trigger] resolved[b]).0
}

proof fn lemma_merge_distinct(old: Seq<(usize, u32)>, new: Seq<(usize, u32)>, at: usize, bits: u32)
    requires
        distinct_at(old),
        (exists|i: int|
            0 <= i < old.len() && (#[trigger] old[i]).0 == at && (forall|j: int| 0 <= j < i ==> (#[trigger] old[j]).0 != at)
                && new == old.update(i, (at, old[i].1 | bits))) || ((forall|j: int| 0 <= j < old.len() ==> (#[trigger] old[j]).0
            != at) && new == old.push((at, bits))),
    ensures
        distinct_at(new),
{
    if exists|i: int|
        0 <= i < old.len() && (#[trigger] old[i]).0 == at && (forall|j: int| 0 <= j < i ==> (#[trigger] old[j]).0 != at) && new
            == old.update(i, (at, old[i].1 | bits)) {
        let i = choose|i: int|
            0 <= i < old.len() && (#[trigger] old[i]).0 == at && (forall|j: int| 0 <= j < i ==> (#[trigger] old[j]).0 != at)
                && new == old.update(i, (at, old[i].1 | bits));
        assert forall|a: int, b: int| 0 <= a < b < new.len() implies (#[trigger] new[a]).0 != (#[trigger] new[b]).0 by {
            assert(new[a].0 == old[a].0);
            assert(new[b].0 == old[b].0);
        }
    } else {
        assert forall|a: int, b: int| 0 <= a < b < new.len() implies (#[trigger] new[a]).0 != (#[trigger] new[b]).0 by {
            if b < old.len() {
                assert(new[a] == old[a]);
                assert(new[b] == old[b]);
            } else {
                assert(new[a] == old[a]);
            }
        }
    }
}

/// What each descriptor write is consumed at: every draw, indexed draw, opaque call or
/// dispatch adds, to each write standing in its pass at a set and binding its pipeline declares
/// (as `answers` gives it), the access the stages of that binding sample it at.
pub fn consumed_accesses(nodes: &Vec<(ValueId, IR)>, answers: &Vec<Option<Vec<DescriptorBinding>>>) -> (r: Vec<(usize, u32)>)
    requires
        answers@.len() == nodes@.len(),
    ensures
        forall|q: int| 0 <= q < r@.len() ==> (#[trigger] r@[q]).0 < nodes@.len(),
        distinct_at(r@),
        consumers_resolved(nodes@, answers@, r@, nodes@.len() as int),
{
    let mut written: Vec<(u32, u32, usize)> = Vec::new();
    let mut open = false;
    let mut resolved: Vec<(usize, u32)> = Vec::new();
    let mut index: usize = 0;
    while index < nodes.len()
        invariant
            index <= nodes@.len(),
            answers@.len() == nodes@.len(),
            open == open_before(nodes@, index as int),
            forall|k: int| 0 <= k < written@.len() ==> (#[trigger] written@[k]).2 < nodes@.len(),
            forall|k: int| 0 <= k < resolved@.len() ==> (#[trigger] resolved@[k]).0 < nodes@.len(),
            forall|w: int|
                #[trigger] stands(nodes@, w, index as int) ==> exists|q: int|
                    0 <= q < written@.len() && #[trigger] written@[q] == written_entry(nodes@, w),
            consumers_resolved(nodes@, answers@, resolved@, index as int),
            distinct_at(resolved@),
        decreases nodes@.len() - index,
    {
        let ghost before_written = written@;
        let ghost before_resolved = resolved@;
        match &nodes[index].1 {
            IR::BeginRendering { .. } | IR::BeginCompute { .. } => {
                written = Vec::new();
                open = true;
            },
            IR::EndRendering { .. } | IR::EndCompute { .. } => {
                open = false;
            },
            IR::WriteDescriptor { set, binding, .. } => {
                if open {
                    let mut k: usize = 0;
                    let mut found = false;
                    let ghost mut found_at: int = 0;
                    while k < written.len()
                        invariant
                            k <= written@.len(),
                            index < nodes@.len(),
                            written@.len() == before_written.len(),
                            forall|q: int| 0 <= q < written@.len() ==> (#[trigger] written@[q]).2 < nodes@.len(),
                            forall|q: int|
                                0 <= q < written@.len() ==> #[trigger] written@[q] == before_written[q] || (written@[q]
                                    == (*set, *binding, index) && before_written[q].0 == *set && before_written[q].1
                                    == *binding),
                            forall|q: int|
                                0 <= q < k && before_written[q].0 == *set && before_written[q].1 == *binding ==> #[trigger] written@[q]
                                    == (*set, *binding, index),
                            found ==> 0 <= found_at < written@.len() && written@[found_at] == (*set, *binding, index),
                        decreases written@.len() - k,
                    {
                        if written[k].0 == *set && written[k].1 == *binding {
                            written.set(k, (*set, *binding, index));
                            found = true;
                            proof {
                                found_at = k as int;
                            }
                        }
                        k = k + 1;
                    }
                    let ghost updated = written@;
                    if !found {
                        written.push((*set, *binding, index));
                        proof {
                            found_at = updated.len() as int;
                        }
                    }
                    proof {
                        assert(written@[found_at] == written_entry(nodes@, index as int));
                        assert forall|q: int| 0 <= q < before_written.len() implies #[trigger] written@[q] == before_written[q] || (
                        before_written[q].0 == *set && before_written[q].1 == *binding) by {
                            assert(written@[q] == updated[q]);
                        }
                    }
                }
            },
            IR::Draw { .. } | IR::DrawIndexed { .. } | IR::CallOpaque { .. } | IR::Dispatch { .. } => {
                if let Some(bindings) = &answers[index] {
                    let mut b: usize = 0;
                    while b < bindings.len()
                        invariant
                            b <= bindings@.len(),
                            answers@[index as int] == Some(*bindings),
                            index < nodes@.len(),
                            written@ == before_written,
                            forall|q: int| 0 <= q < written@.len() ==> (#[trigger] written@[q]).2 < nodes@.len(),
                            forall|q: int| 0 <= q < resolved@.len() ==> (#[trigger] resolved@[q]).0 < nodes@.len(),
                            forall|w: int, x: u32| has_entry(before_resolved, w, x) ==> #[trigger] has_entry(resolved@, w, x),
                            distinct_at(resolved@),
                            forall|bi: int, q: int|
                                0 <= bi < b && 0 <= q < written@.len() && written@[q].0 == bindings@[bi].set && written@[q].1
                                    == bindings@[bi].binding ==> #[trigger] has_entry(
                                    resolved@,
                                    #[trigger] written@[q].2 as int,
                                    sampled_by_spec(bindings@[bi].stages),
                                ),
                        decreases bindings@.len() - b,
                    {
                        let binding = bindings[b];
                        let ghost outer = resolved@;
                        let mut k: usize = 0;
                        while k < written.len()
                            invariant
                                k <= written@.len(),
                                b < bindings@.len(),
                                binding == bindings@[b as int],
                                written@ == before_written,
                                forall|q: int| 0 <= q < written@.len() ==> (#[trigger] written@[q]).2 < nodes@.len(),
                                forall|q: int| 0 <= q < resolved@.len() ==> (#[trigger] resolved@[q]).0 < nodes@.len(),
                                forall|w: int, x: u32| has_entry(outer, w, x) ==> #[trigger] has_entry(resolved@, w, x),
                                distinct_at(resolved@),
                                forall|q: int|
                                    0 <= q < k && written@[q].0 == binding.set && written@[q].1 == binding.binding ==> #[trigger] has_entry(
                                        resolved@,
                                        written@[q].2 as int,
                                        sampled_by_spec(binding.stages),
                                    ),
                            decreases written@.len() - k,
                        {
                            if written[k].0 == binding.set && written[k].1 == binding.binding {
                                let at = written[k].2;
                                let bits = Access::sampled_by(binding.stages).0;
                                let ghost inner = resolved@;
                                merge_resolved(&mut resolved, at, bits, Ghost(nodes@.len() as int));
                                proof {
                                    lemma_merge_keeps(inner, resolved@, at, bits);
                                    lemma_merge_distinct(inner, resolved@, at, bits);
                                }
                            }
                            k = k + 1;
                        }
                        b = b + 1;
                    }
                }
            },
            _ => {},
        }
        proof {
            let i = index as int;
            let ir = nodes@[i].1;
            assert forall|w: int| #[trigger] stands(nodes@, w, i + 1) implies exists|q: int|
                0 <= q < written@.len() && #[trigger] written@[q] == written_entry(nodes@, w) by {
                if w < i {
                    lemma_stands_shrink(nodes@, w, i);
                    lemma_stands_open(nodes@, w, i);
                    let q = choose|q: int| 0 <= q < before_written.len() && #[trigger] before_written[q] == written_entry(nodes@, w);
                    assert(written@[q] == before_written[q]);
                    assert(written@[q] == written_entry(nodes@, w));
                } else {
                    assert(open_before(nodes@, i));
                    assert(ir is WriteDescriptor);
                }
            }
            if consumes_descriptors(ir) {
                if let Some(bindings) = answers@[i] {
                    assert forall|w: int, bi: int|
                        #[trigger] stands(nodes@, w, i) && (#[trigger] answer_binding(answers@, i, bi) matches Some(b) && write_key(
                            nodes@[w].1,
                        ) == Some((b.set, b.binding))) implies has_entry(
                        resolved@,
                        w,
                        sampled_by_spec(answer_binding(answers@, i, bi)->0.stages),
                    ) by {
                        let q = choose|q: int| 0 <= q < written@.len() && #[trigger] written@[q] == written_entry(nodes@, w);
                        assert(written@[q].2 as int == w);
                    }
                }
            }
        }
        index = index + 1;
    }
    resolved
}

/// What the pipelines declare for each instruction of `nodes` that consumes descriptors in
/// an open region with a pipeline bound; nothing for every other instruction.
pub fn pipeline_answers<P: PipelineBindings>(nodes: &Vec<(ValueId, IR)>, pipelines: &P) -> (r: Vec<
    Option<Vec<DescriptorBinding>>,
>)
    ensures
        r@.len() == nodes@.len(),
        forall|c: int|
            0 <= c < nodes@.len() && !(consumes_descriptors(nodes@[c].1) && bound_before(nodes@, c) is Some) ==> (
            #[trigger] r@[c]) is None,
{
    let mut answers: Vec<Option<Vec<DescriptorBinding>>> = Vec::new();
    let mut bound: Option<PipelineId> = None;
    let mut index: usize = 0;
    while index < nodes.len()
        invariant
            index <= nodes@.len(),
            answers@.len() == index,
            bound == bound_before(nodes@, index as int),
            forall|c: int|
                0 <= c < index && !(consumes_descriptors(nodes@[c].1) && bound_before(nodes@, c) is Some) ==> (
                #[trigger] answers@[c]) is None,
        decreases nodes@.len() - index,
    {
        let answer = match bound {
            Some(pipeline) => if is_consumer(&nodes[index].1) {
                pipelines.bindings(pipeline)
            } else {
                None
            },
            None => None,
        };
        answers.push(answer);
        match &nodes[index].1 {
            IR::BeginRendering { .. } | IR::BeginCompute { .. } | IR::EndRendering { .. } | IR::EndCompute { .. } => {
                bound = None;
            },
            IR::BindPipeline { pipeline, .. } => {
                bound = Some(*pipeline);
            },
            _ => {},
        }
        index = index + 1;
    }
    answers
}

/// The access constant a descriptor write names.
pub open spec fn named_access(ir: IR) -> Option<ValueId> {
    match ir {
        IR::WriteDescriptor { access, .. } => Some(access),
        _ => None,
    }
}

/// In `out`, the program `nodes` resolved with `out` ending in its instructions: every write
/// standing at a consumer, whose set and binding a binding the consumer's pipeline declares (as
/// `answers` gives it), names an access constant of `out` that holds at least the access the
/// stages of that binding sample it at.
pub open spec fn writes_resolved(
    nodes: Seq<(ValueId, IR)>,
    answers: Seq<Option<Vec<DescriptorBinding>>>,
    out: Seq<(ValueId, IR)>,
) -> bool {
    forall|c: int, w: int, bi: int|
        0 <= c < nodes.len() && consumes_descriptors(nodes[c].1) && #[trigger] stands(nodes, w, c) && (#[trigger] answer_binding(
            answers,
            c,
            bi,
        ) matches Some(b) && write_key(nodes[w].1) == Some((b.set, b.binding))) ==> (named_access(
            out[out.len() - nodes.len() + w].1,
        ) matches Some(a) && exists|bits: u32|
            #[trigger] holds_access(out, a, bits) && bits & sampled_by_spec(answer_binding(answers, c, bi)->0.stages)
                == sampled_by_spec(answer_binding(answers, c, bi)->0.stages))
}

/// `answers` holds nothing for an instruction that is no consumer with a pipeline bound.
pub open spec fn answers_only_bound(nodes: Seq<(ValueId, IR)>, answers: Seq<Option<Vec<DescriptorBinding>>>) -> bool {
    &&& answers.len() == nodes.len()
    &&& forall|c: int|
        0 <= c < nodes.len() && !(consumes_descriptors(nodes[c].1) && bound_before(nodes, c) is Some) ==> (
        #[trigger] answers[c]) is None
}

/// Works out what each descriptor write is reached at: every draw or dispatch that consumes a
/// write still standing in its pass adds the access the pipeline bound there declares for the
/// binding's stages. Each write then names the access constant for what it came to, a constant
/// already in the program where one holds it, a new one put first where none does. Writes no
/// pipeline consumes keep the access they had.
pub fn resolve_descriptor_access<P: PipelineBindings>(
    nodes: Vec<(ValueId, IR)>,
    pipelines: &P,
    next_id: &mut u32,
) -> (r: Option<Vec<(ValueId, IR)>>)
    requires
        forall|k: int| 0 <= k < nodes@.len() ==> (#[trigger] nodes@[k]).0.0 < *old(next_id),
    ensures
        *final(next_id) >= *old(next_id),
        r is None ==> *final(next_id) == u32::MAX,
        r matches Some(out) ==> {
            &&& out@.len() >= nodes@.len()
            &&& forall|k: int| 0 <= k < out@.len() ==> (#[trigger] out@[k]).0.0 < *final(next_id)
            &&& forall|k: int|
                0 <= k < out@.len() - nodes@.len() ==> (#[trigger] out@[k]).0.0 >= *old(next_id) && out@[k].1 is Constant
            &&& forall|k: int|
                0 <= k < nodes@.len() ==> {
                    let before = nodes@[k];
                    let after = #[trigger] out@[out@.len() - nodes@.len() + k];
                    &&& after.0 == before.0
                    &&& match before.1 {
                        IR::WriteDescriptor { pass, set, binding, descriptor, .. } => after.1 matches IR::WriteDescriptor {
                            pass: p,
                            set: s,
                            binding: b,
                            descriptor: d,
                            ..
                        } && p == pass && s == set && b == binding && d == descriptor,
                        _ => after.1 == before.1,
                    }
                }
        },
        r matches Some(out) ==> exists|answers: Seq<Option<Vec<DescriptorBinding>>>|
            answers_only_bound(nodes@, answers) && #[trigger] writes_resolved(nodes@, answers, out@),
{
    let mut nodes = nodes;
    let ghost original = nodes@;
    let answers = pipeline_answers(&nodes, pipelines);
    let resolved = consumed_accesses(&nodes, &answers);
    let mut ids = access_ids(&nodes);
    let mut constants: Vec<(ValueId, IR)> = Vec::new();
    let ghost unsorted = resolved@;
    let resolved = sorted_resolved(resolved, Ghost(nodes@.len() as int));
    let mut q: usize = 0;
    while q < resolved.len()
        invariant
            q <= resolved@.len(),
            nodes@.len() == original.len(),
            *next_id >= *old(next_id),
            forall|k: int| 0 <= k < resolved@.len() ==> (#[trigger] resolved@[k]).0 < nodes@.len(),
            forall|k: int| 0 <= k < constants@.len() ==> (#[trigger] constants@[k]).0.0 >= *old(next_id)
                && constants@[k].0.0 < *next_id && constants@[k].1 is Constant,
            forall|k: int| 0 <= k < ids@.len() ==> (#[trigger] ids@[k]).1.0 < *next_id,
            forall|k: int| 0 <= k < nodes@.len() ==> (#[trigger] nodes@[k]).0.0 < *next_id,
            forall|k: int|
                0 <= k < nodes@.len() ==> {
                    let before = original[k];
                    let after = #[trigger] nodes@[k];
                    &&& after.0 == before.0
                    &&& match before.1 {
                        IR::WriteDescriptor { pass, set, binding, descriptor, .. } => after.1 matches IR::WriteDescriptor {
                            pass: p,
                            set: s,
                            binding: b,
                            descriptor: d,
                            ..
                        } && p == pass && s == set && b == binding && d == descriptor,
                        _ => after.1 == before.1,
                    }
                },
            distinct_at(resolved@),
            forall|j: int|
                0 <= j < ids@.len() ==> holds_access(original, (#[trigger] ids@[j]).1, ids@[j].0) || holds_access(
                    constants@,
                    ids@[j].1,
                    ids@[j].0,
                ),
            forall|k: int|
                0 <= k < q && original[(#[trigger] resolved@[k]).0 as int].1 is WriteDescriptor ==> (named_access(
                    nodes@[resolved@[k].0 as int].1,
                ) matches Some(a) && (holds_access(original, a, resolved@[k].1) || holds_access(constants@, a, resolved@[k].1))),
        decreases resolved@.len() - q,
    {
        let (at, bits) = resolved[q];
        let ghost before_constants = constants@;
        let ghost before_nodes = nodes@;
        let mut found: Option<ValueId> = None;
        let mut k: usize = 0;
        while k < ids.len()
            invariant
                k <= ids@.len(),
                found matches Some(id) ==> id.0 < *next_id,
                forall|j: int| 0 <= j < ids@.len() ==> (#[trigger] ids@[j]).1.0 < *next_id,
                found matches Some(id) ==> holds_access(original, id, bits) || holds_access(constants@, id, bits),
                forall|j: int|
                    0 <= j < ids@.len() ==> holds_access(original, (#[trigger] ids@[j]).1, ids@[j].0) || holds_access(
                        constants@,
                        ids@[j].1,
                        ids@[j].0,
                    ),
            decreases ids@.len() - k,
        {
            if ids[k].0 == bits {
                found = Some(ids[k].1);
            }
            k = k + 1;
        }
        let access_id = match found {
            Some(id) => id,
            None => {
                if *next_id == u32::MAX {
                    return None;
                }
                let id = alloc_id(next_id);
                let ghost pre = constants@;
                constants.push((id, IR::Constant(Constant::Access(Access(bits)))));
                proof {
                    assert(constants@[pre.len() as int] == (id, IR::Constant(Constant::Access(Access(bits)))));
                    lemma_holds_access_push(pre, (id, IR::Constant(Constant::Access(Access(bits)))));
                }
                let ghost pre_ids = ids@;
                ids.push((bits, id));
                proof {
                    assert forall|j: int| 0 <= j < ids@.len() implies holds_access(original, (#[trigger] ids@[j]).1, ids@[j].0)
                        || holds_access(constants@, ids@[j].1, ids@[j].0) by {
                        if j < pre_ids.len() {
                            assert(ids@[j] == pre_ids[j]);
                        }
                    }
                }
                id
            },
        };
        proof {
            assert(holds_access(original, access_id, bits) || holds_access(constants@, access_id, bits));
        }
        let (node_id, updated) = match &nodes[at] {
            (node_id, IR::WriteDescriptor { pass, set, binding, descriptor, .. }) => (
                *node_id,
                Some(IR::WriteDescriptor { pass: *pass, set: *set, binding: *binding, descriptor: *descriptor, access: access_id }),
            ),
            (node_id, _) => (*node_id, None),
        };
        if let Some(ir) = updated {
            let ghost before = nodes@;
            nodes.set(at, (node_id, ir));
            proof {
                assert forall|k: int| 0 <= k < nodes@.len() && k != at implies #[trigger] nodes@[k] == before[k] by {}
            }
        }
        proof {
            lemma_holds_access_push_all(before_constants, constants@);
            assert forall|k: int|
                0 <= k < q + 1 && original[(#[trigger] resolved@[k]).0 as int].1 is WriteDescriptor implies (named_access(
                nodes@[resolved@[k].0 as int].1,
            ) matches Some(a) && (holds_access(original, a, resolved@[k].1) || holds_access(constants@, a, resolved@[k].1))) by {
                if k < q {
                    assert(resolved@[k].0 != resolved@[q as int].0);
                    assert(nodes@[resolved@[k].0 as int] == before_nodes[resolved@[k].0 as int]);
                } else {
                    assert(before_nodes[at as int].1 is WriteDescriptor);
                }
            }
        }
        q = q + 1;
    }
    let ghost c = constants@;
    let ghost n = nodes@;
    constants.append(&mut nodes);
    proof {
        assert forall|k: int| 0 <= k < constants@.len() implies (#[trigger] constants@[k]).0.0 < *next_id by {
            if k >= c.len() {
                assert(constants@[k] == n[k - c.len()]);
            }
        }
        assert forall|k: int| 0 <= k < n.len() implies #[trigger] constants@[constants@.len() - n.len() + k] == n[k] by {}
        lemma_resolution_reaches_output(original, answers@, unsorted, resolved@, c, n, constants@);
        assert(answers_only_bound(original, answers@));
        assert(writes_resolved(original, answers@, constants@));
    }
    Some(constants)
}

/// What resolution recorded for each write reaches the program it puts out: every write a
/// consumer's pipeline declares names a constant of `out` holding what its stages sample it at.
proof fn lemma_resolution_reaches_output(
    original: Seq<(ValueId, IR)>,
    answers: Seq<Option<Vec<DescriptorBinding>>>,
    unsorted: Seq<(usize, u32)>,
    sorted: Seq<(usize, u32)>,
    c: Seq<(ValueId, IR)>,
    n: Seq<(ValueId, IR)>,
    out: Seq<(ValueId, IR)>,
)
    requires
        consumers_resolved(original, answers, unsorted, original.len() as int),
        sorted.to_multiset() == unsorted.to_multiset(),
        forall|k: int| 0 <= k < sorted.len() ==> (#[trigger] sorted[k]).0 < original.len(),
        forall|k: int|
            0 <= k < sorted.len() && original[(#[trigger] sorted[k]).0 as int].1 is WriteDescriptor ==> (named_access(
                n[sorted[k].0 as int].1,
            ) matches Some(a) && (holds_access(original, a, sorted[k].1) || holds_access(c, a, sorted[k].1))),
        n.len() == original.len(),
        forall|k: int|
            0 <= k < n.len() ==> (#[trigger] n[k]).0 == original[k].0 && (!(original[k].1 is WriteDescriptor) ==> n[k].1
                == original[k].1),
        out.len() == c.len() + n.len(),
        forall|k: int| 0 <= k < c.len() ==> #[trigger] out[k] == c[k],
        forall|k: int| 0 <= k < n.len() ==> #[trigger] out[out.len() - n.len() + k] == n[k],
    ensures
        writes_resolved(original, answers, out),
{
    broadcast use vstd::seq_lib::group_to_multiset_ensures;

    assert forall|cc: int, w: int, bi: int|
        0 <= cc < original.len() && consumes_descriptors(original[cc].1) && #[trigger] stands(original, w, cc) && (
        #[trigger] answer_binding(answers, cc, bi) matches Some(b) && write_key(original[w].1) == Some((b.set, b.binding)))
        implies (named_access(out[out.len() - original.len() + w].1) matches Some(a) && exists|bits: u32|
        #[trigger] holds_access(out, a, bits) && bits & sampled_by_spec(answer_binding(answers, cc, bi)->0.stages)
            == sampled_by_spec(answer_binding(answers, cc, bi)->0.stages)) by {
        let x = sampled_by_spec(answer_binding(answers, cc, bi)->0.stages);
        assert(has_entry(unsorted, w, x));
        let q0 = choose|q: int| 0 <= q < unsorted.len() && (#[trigger] unsorted[q]).0 == w && unsorted[q].1 & x == x;
        let e = unsorted[q0];
        assert(unsorted.contains(e));
        vstd::seq_lib::to_multiset_contains(unsorted, e);
        vstd::seq_lib::to_multiset_contains(sorted, e);
        assert(sorted.contains(e));
        let q1 = choose|q: int| 0 <= q < sorted.len() && sorted[q] == e;
        assert(sorted[q1] == e);
        assert(original[w].1 is WriteDescriptor);
        let a = named_access(n[w].1)->0;
        assert(out[out.len() - n.len() + w] == n[w]);
        if holds_access(original, a, e.1) {
            let j = choose|j: int| 0 <= j < original.len() && (#[trigger] original[j]).0 == a && original[j].1 == IR::Constant(
                Constant::Access(Access(e.1)),
            );
            assert(n[j] == original[j]);
            assert(out[out.len() - n.len() + j] == n[j]);
            assert(holds_access(out, a, e.1));
        } else {
            let j = choose|j: int| 0 <= j < c.len() && (#[trigger] c[j]).0 == a && c[j].1 == IR::Constant(
                Constant::Access(Access(e.1)),
            );
            assert(out[j] == c[j]);
            assert(holds_access(out, a, e.1));
        }
    }
}

proof fn lemma_holds_access_push(s: Seq<(ValueId, IR)>, x: (ValueId, IR))
    ensures
        forall|id: ValueId, bits: u32| holds_access(s, id, bits) ==> #[trigger] holds_access(s.push(x), id, bits),
{
    assert forall|id: ValueId, bits: u32| holds_access(s, id, bits) implies #[trigger] holds_access(s.push(x), id, bits) by {
        let j = choose|j: int| 0 <= j < s.len() && (#[trigger] s[j]).0 == id && s[j].1 == IR::Constant(Constant::Access(Access(bits)));
        assert(s.push(x)[j] == s[j]);
    }
}

/// What `before` holds, `after` holds where `after` extends it.
proof fn lemma_holds_access_push_all(before: Seq<(ValueId, IR)>, after: Seq<(ValueId, IR)>)
    requires
        after.len() >= before.len(),
        forall|k: int| 0 <= k < before.len() ==> #[trigger] after[k] == before[k],
    ensures
        forall|id: ValueId, bits: u32| holds_access(before, id, bits) ==> #[trigger] holds_access(after, id, bits),
{
    assert forall|id: ValueId, bits: u32| holds_access(before, id, bits) implies #[trigger] holds_access(after, id, bits) by {
        let j = choose|j: int| 0 <= j < before.len() && (#[trigger] before[j]).0 == id && before[j].1 == IR::Constant(Constant::Access(Access(bits)));
        assert(after[j] == before[j]);
    }
}


/// Adds `bits` to what `resolved` holds for the write at `at`.
fn merge_resolved(resolved: &mut Vec<(usize, u32)>, at: usize, bits: u32, Ghost(bound): Ghost<int>)
    requires
        at < bound,
        forall|k: int| 0 <= k < old(resolved)@.len() ==> (#[trigger] old(resolved)@[k]).0 < bound,
    ensures
        forall|k: int| 0 <= k < final(resolved)@.len() ==> (#[trigger] final(resolved)@[k]).0 < bound,
        (exists|i: int|
            0 <= i < old(resolved)@.len() && (#[trigger] old(resolved)@[i]).0 == at && (forall|j: int|
                0 <= j < i ==> (#[trigger] old(resolved)@[j]).0 != at) && final(resolved)@ == old(resolved)@.update(
                i,
                (at, old(resolved)@[i].1 | bits),
            )) || ((forall|j: int| 0 <= j < old(resolved)@.len() ==> (#[trigger] old(resolved)@[j]).0 != at)
            && final(resolved)@ == old(resolved)@.push((at, bits))),
{
    let mut k: usize = 0;
    while k < resolved.len()
        invariant
            k <= resolved@.len(),
            resolved@ == old(resolved)@,
            forall|j: int| 0 <= j < k ==> (#[trigger] old(resolved)@[j]).0 != at,
            forall|q: int| 0 <= q < resolved@.len() ==> (#[trigger] resolved@[q]).0 < bound,
        decreases resolved@.len() - k,
    {
        if resolved[k].0 == at {
            let merged = resolved[k].1 | bits;
            resolved.set(k, (at, merged));
            return;
        }
        k = k + 1;
    }
    resolved.push((at, bits));
}

/// `resolved` in the order of the writes it resolves.
fn sorted_resolved(resolved: Vec<(usize, u32)>, Ghost(bound): Ghost<int>) -> (r: Vec<(usize, u32)>)
    requires
        forall|k: int| 0 <= k < resolved@.len() ==> (#[trigger] resolved@[k]).0 < bound,
        distinct_at(resolved@),
    ensures
        distinct_at(r@),
        forall|k: int| 0 <= k < r@.len() ==> (#[trigger] r@[k]).0 < bound,
        forall|i: int, j: int| 0 <= i < j < r@.len() ==> (#[trigger] r@[i]).0 <= (#[trigger] r@[j]).0,
        r@.to_multiset() == resolved@.to_multiset(),
{
    broadcast use vstd::seq_lib::group_to_multiset_ensures;

    let mut list = resolved;
    let mut out: Vec<(usize, u32)> = Vec::new();
    while list.len() > 0
        invariant
            out@.to_multiset().add(list@.to_multiset()) == resolved@.to_multiset(),
            forall|k: int| 0 <= k < out@.len() ==> (#[trigger] out@[k]).0 < bound,
            forall|k: int| 0 <= k < list@.len() ==> (#[trigger] list@[k]).0 < bound,
            forall|i: int, j: int| 0 <= i < j < out@.len() ==> (#[trigger] out@[i]).0 <= (#[trigger] out@[j]).0,
            forall|i: int, j: int| 0 <= i < out@.len() && 0 <= j < list@.len() ==> (#[trigger] out@[i]).0 <= (#[trigger] list@[j]).0,
            distinct_at(out@),
            distinct_at(list@),
            forall|i: int, j: int| 0 <= i < out@.len() && 0 <= j < list@.len() ==> (#[trigger] out@[i]).0 != (#[trigger] list@[j]).0,
        decreases list@.len(),
    {
        let mut best: usize = 0;
        let mut k: usize = 1;
        while k < list.len()
            invariant
                1 <= k <= list@.len(),
                best < list@.len(),
                forall|j: int| 0 <= j < k ==> list@[best as int].0 <= (#[trigger] list@[j]).0,
            decreases list@.len() - k,
        {
            if list[k].0 < list[best].0 {
                best = k;
            }
            k = k + 1;
        }
        let ghost before = list@;
        let ghost out_before = out@;
        let x = list.remove(best);
        proof {
            vstd::seq_lib::to_multiset_remove(before, best as int);
            vstd::seq_lib::to_multiset_build(out_before, x);
            assert forall|k: int| 0 <= k < list@.len() implies x.0 <= (#[trigger] list@[k]).0 && list@[k].0 < bound by {
                if k < best {
                    assert(list@[k] == before[k]);
                } else {
                    assert(list@[k] == before[k + 1]);
                }
            }
        }
        out.push(x);
        proof {
            broadcast use vstd::multiset::group_multiset_axioms;
            assert(before[best as int] == x);
            assert(before.contains(x));
            vstd::seq_lib::to_multiset_contains(before, x);
            assert(list@ == before.remove(best as int));
            assert(out@ == out_before.push(x));
            assert(out@.to_multiset().add(list@.to_multiset()) =~= resolved@.to_multiset());
            assert forall|a: int, b: int| 0 <= a < b < list@.len() implies (#[trigger] list@[a]).0 != (#[trigger] list@[b]).0 by {
                let a0 = if a < best { a } else { a + 1 };
                let b0 = if b < best { b } else { b + 1 };
                assert(list@[a] == before[a0]);
                assert(list@[b] == before[b0]);
            }
            assert forall|a: int, b: int| 0 <= a < b < out@.len() implies (#[trigger] out@[a]).0 != (#[trigger] out@[b]).0 by {
                if b < out_before.len() {
                    assert(out@[a] == out_before[a]);
                    assert(out@[b] == out_before[b]);
                } else {
                    assert(out@[a] == out_before[a]);
                    assert(out@[b] == before[best as int]);
                }
            }
            assert forall|i: int, j: int| 0 <= i < out@.len() && 0 <= j < list@.len() implies (#[trigger] out@[i]).0
                != (#[trigger] list@[j]).0 by {
                let j0 = if j < best { j } else { j + 1 };
                assert(list@[j] == before[j0]);
                if i < out_before.len() {
                    assert(out@[i] == out_before[i]);
                } else {
                    assert(out@[i] == before[best as int]);
                }
            }
        }
    }
    proof {
        assert(list@.to_multiset() =~= vstd::multiset::Multiset::<(usize, u32)>::empty());
        assert(out@.to_multiset().add(list@.to_multiset()) =~= out@.to_multiset());
    }
    out
}


/// Where the instruction `id` first stands among the first `n` of `instrs`.
pub open spec fn first_index(instrs: Seq<(ValueId, IR)>, id: ValueId, n: int) -> Option<int>
    decreases n,
{
    if n <= 0 {
        None
    } else {
        match first_index(instrs, id, n - 1) {
            Some(j) => Some(j),
            None => if instrs[n - 1].0 == id { Some(n - 1) } else { None },
        }
    }
}

/// `id`, followed back through what forwards it and what it is an element of for at most
/// `fuel` steps, reaches an image of its own or one of a swapchain.
pub open spec fn names_an_image_spec(instrs: Seq<(ValueId, IR)>, id: ValueId, fuel: nat) -> bool
    decreases fuel,
{
    if fuel == 0 {
        false
    } else {
        match first_index(instrs, id, instrs.len() as int) {
            None => false,
            Some(j) => match underlying_object_spec(instrs[j].1) {
                UnderlyingObject::Base => instrs[j].1 is ConstructImage || instrs[j].1 is SwapchainImage,
                UnderlyingObject::Forwards(next) => names_an_image_spec(instrs, next, (fuel - 1) as nat),
                UnderlyingObject::Element(next) => names_an_image_spec(instrs, next, (fuel - 1) as nat),
                UnderlyingObject::NoResource => false,
            },
        }
    }
}

/// A pass is open after the first `n` instructions: the last pass boundary among them began one.
pub open spec fn open_at(instrs: Seq<(ValueId, IR)>, n: int) -> bool
    decreases n,
{
    if n <= 0 {
        false
    } else {
        match instrs[n - 1].1 {
            IR::BeginRendering { .. } | IR::BeginCompute { .. } => true,
            IR::EndRendering { .. } | IR::EndCompute { .. } => false,
            _ => open_at(instrs, n - 1),
        }
    }
}

/// The last descriptor written at `set` and `binding` among the first `n` instructions since
/// the last pass boundary, with the write's id.
pub open spec fn written_at(instrs: Seq<(ValueId, IR)>, n: int, set: u32, binding: u32) -> Option<(ValueId, Descriptor)>
    decreases n,
{
    if n <= 0 {
        None
    } else {
        match instrs[n - 1].1 {
            IR::BeginRendering { .. } | IR::BeginCompute { .. } | IR::EndRendering { .. } | IR::EndCompute { .. } => None,
            IR::WriteDescriptor { set: s, binding: b, descriptor, .. } => if s == set && b == binding {
                Some((instrs[n - 1].0, descriptor))
            } else {
                written_at(instrs, n - 1, set, binding)
            },
            _ => written_at(instrs, n - 1, set, binding),
        }
    }
}

/// Something was written into `set` among the first `n` instructions since the last pass
/// boundary.
pub open spec fn set_written_at(instrs: Seq<(ValueId, IR)>, n: int, set: u32) -> bool
    decreases n,
{
    if n <= 0 {
        false
    } else {
        match instrs[n - 1].1 {
            IR::BeginRendering { .. } | IR::BeginCompute { .. } | IR::EndRendering { .. } | IR::EndCompute { .. } => false,
            IR::WriteDescriptor { set: s, .. } => s == set || set_written_at(instrs, n - 1, set),
            _ => set_written_at(instrs, n - 1, set),
        }
    }
}

/// The write at `k` stands in a pass, names an image, and names a sampler that is not null.
pub open spec fn write_is_sound_spec(instrs: Seq<(ValueId, IR)>, k: int) -> bool {
    match instrs[k].1 {
        IR::WriteDescriptor { descriptor, .. } => {
            &&& open_at(instrs, k)
            &&& names_an_image_spec(instrs, descriptor.spec_image(), MAX_RESOLVE_DEPTH as nat)
            &&& !(descriptor matches Descriptor::CombinedImageSampler { sampler, .. } && sampler == 0)
        },
        _ => true,
    }
}

/// The pipeline a draw or dispatch runs with.
pub open spec fn consumer_pipeline(ir: IR) -> Option<PipelineId> {
    match ir {
        IR::Draw { pipeline, .. } | IR::DrawIndexed { pipeline, .. } | IR::Dispatch { pipeline, .. } => Some(pipeline),
        _ => None,
    }
}

/// `id` reaches an image: one of its own or one of a swapchain.
pub fn names_an_image(instrs: &Vec<(ValueId, IR)>, id: ValueId) -> (r: bool)
    ensures
        r == names_an_image_spec(instrs@, id, MAX_RESOLVE_DEPTH as nat),
{
    let mut current = id;
    let mut depth: usize = 0;
    while depth < MAX_RESOLVE_DEPTH
        invariant
            depth <= MAX_RESOLVE_DEPTH,
            names_an_image_spec(instrs@, current, (MAX_RESOLVE_DEPTH - depth) as nat) == names_an_image_spec(
                instrs@,
                id,
                MAX_RESOLVE_DEPTH as nat,
            ),
        decreases MAX_RESOLVE_DEPTH - depth,
    {
        let k = match position_of(instrs, current) {
            Some(k) => k,
            None => return false,
        };
        let ir = &instrs[k].1;
        proof {
            let fuel = (MAX_RESOLVE_DEPTH - depth) as nat;
            assert(first_index(instrs@, current, instrs@.len() as int) == Some(k as int));
            assert(names_an_image_spec(instrs@, current, fuel) == match underlying_object_spec(instrs@[k as int].1) {
                UnderlyingObject::Base => instrs@[k as int].1 is ConstructImage || instrs@[k as int].1 is SwapchainImage,
                UnderlyingObject::Forwards(next) => names_an_image_spec(instrs@, next, (fuel - 1) as nat),
                UnderlyingObject::Element(next) => names_an_image_spec(instrs@, next, (fuel - 1) as nat),
                UnderlyingObject::NoResource => false,
            });
        }
        match underlying_object(ir) {
            UnderlyingObject::Base => {
                return match ir {
                    IR::ConstructImage { .. } | IR::SwapchainImage { .. } => true,
                    _ => false,
                };
            },
            UnderlyingObject::Forwards(next) => current = next,
            UnderlyingObject::Element(next) => current = next,
            UnderlyingObject::NoResource => return false,
        }
        depth = depth + 1;
    }
    false
}

/// Where `id` first stands in `instrs`.
pub fn position_of(instrs: &Vec<(ValueId, IR)>, id: ValueId) -> (r: Option<usize>)
    ensures
        r matches Some(j) ==> j < instrs@.len() && first_index(instrs@, id, instrs@.len() as int) == Some(j as int),
        r is None ==> first_index(instrs@, id, instrs@.len() as int) is None,
{
    let mut i: usize = 0;
    while i < instrs.len()
        invariant
            i <= instrs@.len(),
            first_index(instrs@, id, i as int) is None,
        decreases instrs@.len() - i,
    {
        if instrs[i].0 == id {
            proof {
                lemma_first_index_found(instrs@, id, i as int, instrs@.len() as int);
            }
            return Some(i);
        }
        i = i + 1;
    }
    None
}

/// Once `id` is found first at `j`, a longer prefix finds it there too.
proof fn lemma_first_index_found(instrs: Seq<(ValueId, IR)>, id: ValueId, j: int, n: int)
    requires
        0 <= j < n <= instrs.len(),
        first_index(instrs, id, j) is None,
        instrs[j].0 == id,
    ensures
        first_index(instrs, id, n) == Some(j),
    decreases n - j,
{
    if n > j + 1 {
        lemma_first_index_found(instrs, id, j, n - 1);
    }
}

/// The descriptors written since the last pass boundary, oldest first, each with the write's
/// id, set and binding.
pub open spec fn log_lookup(log: Seq<(u32, u32, ValueId, Descriptor)>, set: u32, binding: u32) -> Option<(ValueId, Descriptor)>
    decreases log.len(),
{
    if log.len() == 0 {
        None
    } else if log.last().0 == set && log.last().1 == binding {
        Some((log.last().2, log.last().3))
    } else {
        log_lookup(log.drop_last(), set, binding)
    }
}

/// What the writes logged give a draw or dispatch with `pipeline`, declaring `bindings` with
/// `bindless` its bindless set, fits them: each binding outside the bindless set finds a write
/// whose descriptor can stand there and whose type, in `resolved`, was resolved to the one
/// declared; nothing was written into the bindless set.
pub fn descriptors_are_compatible_with_pipeline(
    log: &Vec<(u32, u32, ValueId, Descriptor)>,
    resolved: &Vec<Option<i32>>,
    pipeline: PipelineId,
    bindings: Option<Vec<DescriptorBinding>>,
    bindless: Option<u32>,
) -> (r: bool)
    requires
        resolved@.len() == log@.len(),
    ensures
        r == (!pipeline.valid() || match bindings {
            None => true,
            Some(declared) => {
                &&& forall|q: int|
                    0 <= q < declared@.len() && bindless != Some((#[trigger] declared@[q]).set) ==> match last_write(
                        log@,
                        declared@[q].set,
                        declared@[q].binding,
                    ) {
                        Some(e) => supports_type_spec(log@[e].3, declared@[q].descriptor_type) && resolved@[e] == Some(
                            declared@[q].descriptor_type,
                        ),
                        None => false,
                    }
                &&& bindless matches Some(set) ==> !(exists|e: int| 0 <= e < log@.len() && (#[trigger] log@[e]).0 == set)
            },
        }),
{
    if pipeline.is_invalid() {
        return true;
    }
    let declared = match bindings {
        Some(declared) => declared,
        None => return true,
    };
    let mut sound = true;
    let mut q: usize = 0;
    while q < declared.len()
        invariant
            q <= declared@.len(),
            resolved@.len() == log@.len(),
            sound == forall|p: int|
                0 <= p < q && bindless != Some((#[trigger] declared@[p]).set) ==> match last_write(
                    log@,
                    declared@[p].set,
                    declared@[p].binding,
                ) {
                    Some(e) => supports_type_spec(log@[e].3, declared@[p].descriptor_type) && resolved@[e] == Some(
                        declared@[p].descriptor_type,
                    ),
                    None => false,
                },
        decreases declared@.len() - q,
    {
        let binding = declared[q];
        if bindless != Some(binding.set) {
            match last_write_at(log, binding.set, binding.binding) {
                Some(e) => {
                    if !supports_type(&log[e].3, binding.descriptor_type) || resolved[e] != Some(binding.descriptor_type) {
                        sound = false;
                    }
                },
                None => sound = false,
            }
        }
        q = q + 1;
    }
    let mut e: usize = 0;
    let mut into_bindless = false;
    while e < log.len()
        invariant
            e <= log@.len(),
            into_bindless == (bindless matches Some(set) && exists|f: int| 0 <= f < e && (#[trigger] log@[f]).0 == set),
        decreases log@.len() - e,
    {
        if bindless == Some(log[e].0) {
            into_bindless = true;
        }
        e = e + 1;
    }
    sound && !into_bindless
}

/// Where the last write of `log` to `binding` of `set` stands.
fn last_write_at(log: &Vec<(u32, u32, ValueId, Descriptor)>, set: u32, binding: u32) -> (r: Option<usize>)
    ensures
        match r {
            Some(at) => at < log@.len() && last_write(log@, set, binding) == Some(at as int),
            None => last_write(log@, set, binding) is None,
        },
{
    let mut e: usize = log.len();
    let mut found: Option<usize> = None;
    while e > 0 && found.is_none()
        invariant
            e <= log@.len(),
            found matches Some(at) ==> at < log@.len() && log@[at as int].0 == set && log@[at as int].1 == binding
                && forall|l: int| at < l < log@.len() ==> !(log@[l].0 == set && log@[l].1 == binding),
            found is None ==> forall|l: int| e <= l < log@.len() ==> !(log@[l].0 == set && log@[l].1 == binding),
        decreases e,
    {
        e = e - 1;
        if log[e].0 == set && log[e].1 == binding {
            found = Some(e);
        }
    }
    proof {
        match found {
            Some(at) => {
                assert(last_write(log@, set, binding) == Some(at as int));
            },
            None => {
                assert(last_write(log@, set, binding) is None);
            },
        }
    }
    found
}

/// The write at `k` of `instrs`, logged in `log`, is sound.
fn write_is_sound(instrs: &Vec<(ValueId, IR)>, open: bool, descriptor: &Descriptor) -> (r: bool)
    ensures
        r == (open && names_an_image_spec(instrs@, descriptor.spec_image(), MAX_RESOLVE_DEPTH as nat) && !(
        *descriptor matches Descriptor::CombinedImageSampler { sampler, .. } && sampler == 0)),
{
    if !open {
        return false;
    }
    if !names_an_image(instrs, descriptor.image()) {
        return false;
    }
    match descriptor.sampler() {
        Some(sampler) => sampler != 0,
        None => true,
    }
}

/// Some descriptor write stands among the first `n` instructions since the last pass boundary.
pub open spec fn standing_at(instrs: Seq<(ValueId, IR)>, n: int) -> bool
    decreases n,
{
    if n <= 0 {
        false
    } else {
        match instrs[n - 1].1 {
            IR::BeginRendering { .. } | IR::BeginCompute { .. } | IR::EndRendering { .. } | IR::EndCompute { .. } => false,
            IR::WriteDescriptor { .. } => true,
            _ => standing_at(instrs, n - 1),
        }
    }
}

/// The instruction at `k` is a draw or dispatch whose pipeline's bindings have to be asked
/// for: it names a valid pipeline, or descriptors it would consume stand in its pass.
pub open spec fn demands_bindings(instrs: Seq<(ValueId, IR)>, k: int) -> bool {
    consumer_pipeline(instrs[k].1) matches Some(p) && (p.valid() || standing_at(instrs, k))
}

/// The last write of `log` to `binding` of `set`.
pub open spec fn last_write(log: Seq<(u32, u32, ValueId, Descriptor)>, set: u32, binding: u32) -> Option<int> {
    if exists|e: int| 0 <= e < log.len() && log[e].0 == set && log[e].1 == binding {
        Some(
            choose|e: int|
                0 <= e < log.len() && log[e].0 == set && log[e].1 == binding && forall|l: int|
                    e < l < log.len() ==> !(log[l].0 == set && log[l].1 == binding),
        )
    } else {
        None
    }
}

/// The types resolved so far and whether they conflicted, once `binding` is declared: the
/// last write to it takes its type, or conflicts where it took another one already.
pub open spec fn types_step(
    log: Seq<(u32, u32, ValueId, Descriptor)>,
    state: (Seq<Option<i32>>, bool),
    binding: DescriptorBinding,
    bindless: Option<u32>,
) -> (Seq<Option<i32>>, bool) {
    if bindless == Some(binding.set) {
        state
    } else {
        match last_write(log, binding.set, binding.binding) {
            None => state,
            Some(at) => match state.0[at] {
                Some(t) => (state.0, state.1 || t != binding.descriptor_type),
                None => (state.0.update(at, Some(binding.descriptor_type)), state.1),
            },
        }
    }
}

/// The types resolved and whether they conflicted, after each of `declared` in order.
pub open spec fn types_over(
    log: Seq<(u32, u32, ValueId, Descriptor)>,
    start: Seq<Option<i32>>,
    declared: Seq<DescriptorBinding>,
    bindless: Option<u32>,
) -> (Seq<Option<i32>>, bool)
    decreases declared.len(),
{
    if declared.len() == 0 {
        (start, false)
    } else {
        types_step(log, types_over(log, start, declared.drop_last(), bindless), declared.last(), bindless)
    }
}

/// Gives each descriptor standing at a binding `declared` names the type declared there,
/// where it has none yet. Says whether one was already given another type: one write cannot
/// stand for two types of descriptor.
fn resolve_types(
    log: &Vec<(u32, u32, ValueId, Descriptor)>,
    resolved: &mut Vec<Option<i32>>,
    declared: &Vec<DescriptorBinding>,
    bindless: Option<u32>,
) -> (conflict: bool)
    requires
        old(resolved)@.len() == log@.len(),
    ensures
        final(resolved)@.len() == log@.len(),
        (final(resolved)@, conflict) == types_over(log@, old(resolved)@, declared@, bindless),
{
    let mut conflict = false;
    let mut q: usize = 0;
    while q < declared.len()
        invariant
            q <= declared@.len(),
            resolved@.len() == log@.len(),
            (resolved@, conflict) == types_over(log@, old(resolved)@, declared@.take(q as int), bindless),
        decreases declared@.len() - q,
    {
        proof {
            assert(declared@.take(q + 1).drop_last() =~= declared@.take(q as int));
            assert(declared@.take(q + 1).last() == declared@[q as int]);
        }
        let binding = declared[q];
        if bindless != Some(binding.set) {
            let found = last_write_at(log, binding.set, binding.binding);
            if let Some(at) = found {
                match resolved[at] {
                    Some(t) => {
                        if t != binding.descriptor_type {
                            conflict = true;
                        }
                    },
                    None => resolved.set(at, Some(binding.descriptor_type)),
                }
            }
        }
        q = q + 1;
    }
    proof {
        assert(declared@.take(q as int) =~= declared@);
    }
    conflict
}

/// The instruction at `k` is a draw or dispatch without a valid pipeline while descriptors
/// stand in its pass for it to consume.
pub open spec fn consumes_without_pipeline(instrs: Seq<(ValueId, IR)>, k: int) -> bool {
    consumer_pipeline(instrs[k].1) matches Some(p) && !p.valid() && standing_at(instrs, k)
}

/// Checks a program's descriptor writes against the pipelines that consume them. Every write
/// has to stand in a pass, name an image, and name a sampler that is not null; every draw and
/// dispatch whose pipeline `pipelines` declares bindings for has to find each of them written,
/// outside the pipeline's bindless set, with a descriptor that can stand there, and nothing
/// written into that set; a descriptor standing where a draw or dispatch runs needs that
/// draw or dispatch to name a valid pipeline whose bindings `pipelines` knows, and stands for
/// the one type of descriptor the first pipeline to consume it declares. Fails where any of
/// this does not hold. A write that is not sound fails the check whatever `pipelines`
/// answers; where every write is sound and no draw or dispatch names a valid pipeline or has
/// descriptors standing in its pass, the check passes.
pub fn analyze_descriptors<P: PipelineBindings>(instrs: &Vec<(ValueId, IR)>, pipelines: &P) -> (r: Result<(), CompileError>)
    ensures
        (exists|k: int| 0 <= k < instrs@.len() && !#[trigger] write_is_sound_spec(instrs@, k)) ==> r is Err,
        (forall|k: int| 0 <= k < instrs@.len() ==> #[trigger] write_is_sound_spec(instrs@, k))
            && (forall|k: int| 0 <= k < instrs@.len() ==> !#[trigger] demands_bindings(instrs@, k)) ==> r is Ok,
        r is Err ==> (exists|k: int| 0 <= k < instrs@.len() && !#[trigger] write_is_sound_spec(instrs@, k)) || (exists|k: int|
            0 <= k < instrs@.len() && #[trigger] demands_bindings(instrs@, k)),
        (exists|k: int| 0 <= k < instrs@.len() && #[trigger] consumes_without_pipeline(instrs@, k)) ==> r is Err,
{
    let mut log: Vec<(u32, u32, ValueId, Descriptor)> = Vec::new();
    let mut resolved: Vec<Option<i32>> = Vec::new();
    let mut open = false;
    let mut failed = false;
    let mut unsound_write = false;
    let mut consumed = false;
    let mut i: usize = 0;
    while i < instrs.len()
        invariant
            i <= instrs@.len(),
            open == open_at(instrs@, i as int),
            forall|s: u32, b: u32| #[trigger] log_lookup(log@, s, b) == written_at(instrs@, i as int, s, b),
            forall|s: u32| (exists|e: int| 0 <= e < log@.len() && (#[trigger] log@[e]).0 == s) == #[trigger] set_written_at(instrs@, i as int, s),
            unsound_write == exists|k: int| 0 <= k < i && !#[trigger] write_is_sound_spec(instrs@, k),
            consumed == exists|k: int| 0 <= k < i && #[trigger] demands_bindings(instrs@, k),
            resolved@.len() == log@.len(),
            (log@.len() > 0) == standing_at(instrs@, i as int),
            failed ==> unsound_write || consumed,
            unsound_write ==> failed,
            (exists|k: int| 0 <= k < i && #[trigger] consumes_without_pipeline(instrs@, k)) ==> failed,
        decreases instrs@.len() - i,
    {
        let id = instrs[i].0;
        let ghost before = log@;
        match &instrs[i].1 {
            IR::BeginRendering { .. } | IR::BeginCompute { .. } => {
                open = true;
                log = Vec::new();
                resolved = Vec::new();
            },
            IR::EndRendering { .. } | IR::EndCompute { .. } => {
                open = false;
                log = Vec::new();
                resolved = Vec::new();
            },
            IR::WriteDescriptor { set, binding, descriptor, .. } => {
                if !write_is_sound(instrs, open, descriptor) {
                    failed = true;
                    unsound_write = true;
                }
                log.push((*set, *binding, id, *descriptor));
                resolved.push(None);
                proof {
                    assert(log@.drop_last() =~= before);
                    assert(log@.last() == (*set, *binding, id, *descriptor));
                    assert forall|s: u32, b: u32| #[trigger] log_lookup(log@, s, b) == written_at(instrs@, i + 1, s, b) by {
                        assert(log_lookup(before, s, b) == written_at(instrs@, i as int, s, b));
                    }
                    assert forall|s: u32|
                        (exists|e: int| 0 <= e < log@.len() && (#[trigger] log@[e]).0 == s) == #[trigger] set_written_at(
                            instrs@,
                            i + 1,
                            s,
                        ) by {
                        assert(log@[before.len() as int].0 == *set);
                        assert(set_written_at(instrs@, i + 1, s) == (*set == s || set_written_at(instrs@, i as int, s)));
                        if *set == s {
                            assert(log@[before.len() as int].0 == s);
                        }
                        if set_written_at(instrs@, i as int, s) {
                            let e = choose|e: int| 0 <= e < before.len() && (#[trigger] before[e]).0 == s;
                            assert(log@[e].0 == s);
                        }
                        if exists|e: int| 0 <= e < log@.len() && (#[trigger] log@[e]).0 == s {
                            let e = choose|e: int| 0 <= e < log@.len() && (#[trigger] log@[e]).0 == s;
                            if e < before.len() {
                                assert(before[e].0 == s);
                            }
                        }
                    }
                }
            },
            IR::Draw { pipeline, .. } | IR::DrawIndexed { pipeline, .. } | IR::Dispatch { pipeline, .. } => {
                let standing = log.len() > 0;
                if pipeline.is_valid() || standing {
                    consumed = true;
                }
                if pipeline.is_valid() {
                    let bindings = pipelines.bindings(*pipeline);
                    let bindless = pipelines.bindless_set(*pipeline);
                    match &bindings {
                        Some(declared) => {
                            if resolve_types(&log, &mut resolved, declared, bindless) {
                                failed = true;
                            }
                        },
                        None => {
                            if standing {
                                failed = true;
                            }
                        },
                    }
                    if !descriptors_are_compatible_with_pipeline(&log, &resolved, *pipeline, bindings, bindless) {
                        failed = true;
                    }
                } else if standing {
                    failed = true;
                }
            },
            _ => {},
        }
        proof {
            assert(open == open_at(instrs@, i + 1));
            assert forall|s: u32, b: u32| #[trigger] log_lookup(log@, s, b) == written_at(instrs@, i + 1, s, b) by {
                if instrs@[i as int].1 is WriteDescriptor {
                } else {
                }
            }
            assert forall|s: u32|
                (exists|e: int| 0 <= e < log@.len() && (#[trigger] log@[e]).0 == s) == #[trigger] set_written_at(
                    instrs@,
                    i + 1,
                    s,
                ) by {
                if !(instrs@[i as int].1 is WriteDescriptor) {
                    if log@.len() == 0 {
                        assert(!set_written_at(instrs@, i + 1, s) || log@ == before);
                    } else {
                        assert(log@ == before);
                        assert(set_written_at(instrs@, i + 1, s) == set_written_at(instrs@, i as int, s));
                    }
                    if log@ == before {
                        assert(set_written_at(instrs@, i + 1, s) == set_written_at(instrs@, i as int, s));
                    }
                }
            }
            assert((log@.len() > 0) == standing_at(instrs@, i + 1));
            assert((exists|k: int| 0 <= k < i + 1 && #[trigger] demands_bindings(instrs@, k)) == consumed) by {
                if demands_bindings(instrs@, i as int) {
                    assert(consumed);
                }
            }
            assert((exists|k: int| 0 <= k < i + 1 && #[trigger] consumes_without_pipeline(instrs@, k)) ==> failed) by {
                if exists|k: int| 0 <= k < i + 1 && #[trigger] consumes_without_pipeline(instrs@, k) {
                    let k = choose|k: int| 0 <= k < i + 1 && #[trigger] consumes_without_pipeline(instrs@, k);
                    if k < i {
                        assert(exists|q: int| 0 <= q < i && #[trigger] consumes_without_pipeline(instrs@, q));
                    }
                }
            }
            assert((exists|k: int| 0 <= k < i + 1 && !#[trigger] write_is_sound_spec(instrs@, k)) == (unsound_write)) by {
                if !write_is_sound_spec(instrs@, i as int) {
                    assert(instrs@[i as int].1 is WriteDescriptor);
                }
            }
        }
        i = i + 1;
    }
    if failed {
        Err(CompileError::InvalidDescriptors)
    } else {
        Ok(())
    }
}

} // verus!
