//! What a pipeline is built from: the reflections of its shaders, the vertex layout and the
//! push-constant ranges they add up to, and the checks its descriptor bindings have to pass.
use vstd::prelude::*;

use crate::access::STAGE_VERTEX;
use crate::analysis::DescriptorBinding;
use crate::ir::{DESCRIPTOR_TYPE_COMBINED_IMAGE_SAMPLER, DESCRIPTOR_TYPE_SAMPLED_IMAGE};

verus! {

/// One input a vertex shader reads: its location, its raw Vulkan format, and its size in bytes.
#[derive(Debug, Clone, Copy, PartialEq, Eq, Structural)]
pub struct VertexInput {
    pub location: u32,
    pub format: i32,
    pub size: u32,
}

/// What a shader module declares, as reflected from it.
#[derive(Debug, Clone)]
pub struct Reflection {
    /// The raw stage flag of the stage it runs at.
    pub stage: u32,
    /// The entry point's name, without the nul that ends it in the module.
    pub entry_point: Vec<u8>,
    pub bindings: Vec<DescriptorBinding>,
    /// Where the stage's push constant block starts. Zero when the stage has none.
    pub push_constant_offset: u32,
    /// How many bytes the block spans from `push_constant_offset`. Zero when the stage has none.
    pub push_constant_size: u32,
    /// Empty for every stage but the vertex stage.
    pub vertex_inputs: Vec<VertexInput>,
    /// The workgroup the stage declares. One invocation on each axis for every stage but the
    /// compute stage.
    pub local_size: [u32; 3],
}

/// One attribute of the interleaved vertex binding.
#[derive(Debug, Clone, Copy, PartialEq, Eq, Structural)]
pub struct VertexAttribute {
    pub location: u32,
    pub format: i32,
    pub offset: u32,
}

/// The vertex inputs of a pipeline packed into one binding, one after the other.
#[derive(Debug, Clone, Default, PartialEq, Eq)]
pub struct VertexLayout {
    pub stride: u32,
    pub attributes: Vec<VertexAttribute>,
}

/// Where the first reflection of the vertex stage stands among the first `n`.
pub open spec fn first_vertex(reflections: Seq<Reflection>, n: int) -> Option<int>
    decreases n,
{
    if n <= 0 {
        None
    } else {
        match first_vertex(reflections, n - 1) {
            Some(j) => Some(j),
            None => if reflections[n - 1].stage == STAGE_VERTEX { Some(n - 1) } else { None },
        }
    }
}

/// The bytes the first `n` inputs take up together.
pub open spec fn size_sum(inputs: Seq<VertexInput>, n: int) -> int
    decreases n,
{
    if n <= 0 {
        0
    } else {
        size_sum(inputs, n - 1) + inputs[n - 1].size
    }
}

proof fn lemma_size_sum_grows(inputs: Seq<VertexInput>, i: int, n: int)
    requires
        0 <= i <= n,
    ensures
        size_sum(inputs, i) <= size_sum(inputs, n),
    decreases n - i,
{
    if i < n {
        lemma_size_sum_grows(inputs, i, n - 1);
    }
}

impl VertexLayout {
    /// The inputs of the first vertex stage among `reflections`, each at the offset where the
    /// inputs before it end, the stride where the last ends; empty where no stage is a vertex
    /// stage.
    pub fn interleaved(reflections: &Vec<Reflection>) -> (r: VertexLayout)
        requires
            first_vertex(reflections@, reflections@.len() as int) matches Some(j) ==> size_sum(
                reflections@[j].vertex_inputs@,
                reflections@[j].vertex_inputs@.len() as int,
            ) <= u32::MAX,
        ensures
            match first_vertex(reflections@, reflections@.len() as int) {
                None => r.stride == 0 && r.attributes@.len() == 0,
                Some(j) => {
                    let inputs = reflections@[j].vertex_inputs@;
                    &&& r.stride == size_sum(inputs, inputs.len() as int)
                    &&& r.attributes@.len() == inputs.len()
                    &&& forall|k: int|
                        0 <= k < inputs.len() ==> #[trigger] r.attributes@[k] == (VertexAttribute {
                            location: inputs[k].location,
                            format: inputs[k].format,
                            offset: size_sum(inputs, k) as u32,
                        })
                },
            },
    {
        let mut found: Option<usize> = None;
        let mut i: usize = 0;
        while i < reflections.len()
            invariant
                i <= reflections@.len(),
                first_vertex(reflections@, i as int) == (match found {
                    Some(j) => Some(j as int),
                    None => None,
                }),
                found matches Some(j) ==> j < i,
            decreases reflections@.len() - i,
        {
            if found.is_none() && reflections[i].stage == STAGE_VERTEX {
                found = Some(i);
            }
            i = i + 1;
        }
        let j = match found {
            Some(j) => j,
            None => return VertexLayout { stride: 0, attributes: Vec::new() },
        };
        let inputs = &reflections[j].vertex_inputs;
        let ghost total = size_sum(inputs@, inputs@.len() as int);
        let mut attributes: Vec<VertexAttribute> = Vec::new();
        let mut offset: u32 = 0;
        let mut k: usize = 0;
        while k < inputs.len()
            invariant
                k <= inputs@.len(),
                total == size_sum(inputs@, inputs@.len() as int),
                total <= u32::MAX,
                offset == size_sum(inputs@, k as int),
                attributes@.len() == k,
                forall|q: int|
                    0 <= q < k ==> #[trigger] attributes@[q] == (VertexAttribute {
                        location: inputs@[q].location,
                        format: inputs@[q].format,
                        offset: size_sum(inputs@, q) as u32,
                    }),
            decreases inputs@.len() - k,
        {
            proof {
                lemma_size_sum_grows(inputs@, k + 1, inputs@.len() as int);
            }
            attributes.push(VertexAttribute { location: inputs[k].location, format: inputs[k].format, offset });
            offset = offset + inputs[k].size;
            k = k + 1;
        }
        VertexLayout { stride: offset, attributes }
    }

    pub fn is_empty(&self) -> (r: bool)
        ensures
            r == (self.attributes@.len() == 0),
    {
        self.attributes.len() == 0
    }
}

/// A range of the push-constant block and the stages that read it.
#[derive(Debug, Clone, Copy, PartialEq, Eq, Structural)]
pub struct PushConstantRange {
    pub stage_flags: u32,
    pub offset: u32,
    pub size: u32,
}

/// Ranges are ordered by where they start, then by how far they reach.
pub open spec fn range_before(a: PushConstantRange, b: PushConstantRange) -> bool {
    a.offset < b.offset || (a.offset == b.offset && a.size < b.size)
}

/// One of the first `n` reflections pushes a block of `size` bytes at `offset`.
pub open spec fn pushes(reflections: Seq<Reflection>, n: int, offset: u32, size: u32) -> bool {
    exists|j: int|
        0 <= j < n && (#[trigger] reflections[j]).push_constant_size != 0 && reflections[j].push_constant_offset == offset
            && reflections[j].push_constant_size == size
}

/// The stages among the first `n` reflections that push a block of `size` bytes at `offset`.
pub open spec fn stages_pushing(reflections: Seq<Reflection>, n: int, offset: u32, size: u32) -> u32
    decreases n,
{
    if n <= 0 {
        0
    } else {
        let r = reflections[n - 1];
        stages_pushing(reflections, n - 1, offset, size) | if r.push_constant_size != 0 && r.push_constant_offset == offset
            && r.push_constant_size == size {
            r.stage
        } else {
            0
        }
    }
}

proof fn lemma_nothing_pushed(reflections: Seq<Reflection>, n: int, offset: u32, size: u32)
    requires
        forall|j: int| 0 <= j < n ==> !((#[trigger] reflections[j]).push_constant_size != 0 && reflections[j].push_constant_offset
            == offset && reflections[j].push_constant_size == size),
    ensures
        stages_pushing(reflections, n, offset, size) == 0,
    decreases n,
{
    if n > 0 {
        lemma_nothing_pushed(reflections, n - 1, offset, size);
        assert(0u32 | 0u32 == 0u32) by (bit_vector);
    }
}

/// Where a range at `offset` of `size` bytes stands in the sorted `ranges`, or where it would
/// go.
fn range_position(ranges: &Vec<PushConstantRange>, offset: u32, size: u32) -> (r: (bool, usize))
    requires
        forall|i: int, j: int| 0 <= i < j < ranges@.len() ==> range_before(#[trigger] ranges@[i], #[trigger] ranges@[j]),
    ensures
        r.1 <= ranges@.len(),
        r.0 ==> r.1 < ranges@.len() && ranges@[r.1 as int].offset == offset && ranges@[r.1 as int].size == size,
        !r.0 ==> forall|i: int|
            0 <= i < ranges@.len() ==> (i < r.1 <==> range_before(
                #[trigger] ranges@[i],
                PushConstantRange { stage_flags: 0, offset, size },
            )) && !(ranges@[i].offset == offset && ranges@[i].size == size),
{
    let ghost key = PushConstantRange { stage_flags: 0, offset, size };
    let mut i: usize = 0;
    while i < ranges.len()
        invariant
            i <= ranges@.len(),
            key == (PushConstantRange { stage_flags: 0, offset, size }),
            forall|q: int| 0 <= q < i ==> range_before(#[trigger] ranges@[q], key),
            forall|a: int, b: int| 0 <= a < b < ranges@.len() ==> range_before(#[trigger] ranges@[a], #[trigger] ranges@[b]),
        decreases ranges@.len() - i,
    {
        let here = ranges[i];
        if here.offset == offset && here.size == size {
            return (true, i);
        }
        if !(here.offset < offset || (here.offset == offset && here.size < size)) {
            proof {
                assert forall|q: int| 0 <= q < ranges@.len() implies (q < i <==> range_before(
                    #[trigger] ranges@[q],
                    key,
                )) && !(ranges@[q].offset == offset && ranges@[q].size == size) by {
                    if q > i {
                        assert(range_before(ranges@[i as int], ranges@[q]));
                        assert(!range_before(ranges@[q], key));
                    } else if q == i {
                        assert(!range_before(ranges@[q], key));
                    } else {
                        assert(range_before(ranges@[q], key));
                    }
                }
            }
            return (false, i);
        }
        i = i + 1;
    }
    (false, i)
}

/// The push-constant ranges the stages declare: one per distinct block, read by every stage
/// that pushes that block, ordered by where they start, then by their size. Stages that push
/// nothing add no range.
pub fn push_constant_ranges(reflections: &Vec<Reflection>) -> (r: Vec<PushConstantRange>)
    ensures
        forall|i: int, j: int| 0 <= i < j < r@.len() ==> range_before(#[trigger] r@[i], #[trigger] r@[j]),
        forall|k: int|
            0 <= k < r@.len() ==> pushes(reflections@, reflections@.len() as int, (#[trigger] r@[k]).offset, r@[k].size)
                && r@[k].stage_flags == stages_pushing(reflections@, reflections@.len() as int, r@[k].offset, r@[k].size),
        forall|j: int|
            0 <= j < reflections@.len() && (#[trigger] reflections@[j]).push_constant_size != 0 ==> exists|k: int|
                0 <= k < r@.len() && (#[trigger] r@[k]).offset == reflections@[j].push_constant_offset && r@[k].size
                    == reflections@[j].push_constant_size,
{
    let mut ranges: Vec<PushConstantRange> = Vec::new();
    let mut n: usize = 0;
    while n < reflections.len()
        invariant
            n <= reflections@.len(),
            forall|i: int, j: int| 0 <= i < j < ranges@.len() ==> range_before(#[trigger] ranges@[i], #[trigger] ranges@[j]),
            forall|k: int|
                0 <= k < ranges@.len() ==> pushes(reflections@, n as int, (#[trigger] ranges@[k]).offset, ranges@[k].size)
                    && ranges@[k].stage_flags == stages_pushing(reflections@, n as int, ranges@[k].offset, ranges@[k].size),
            forall|j: int|
                0 <= j < n && (#[trigger] reflections@[j]).push_constant_size != 0 ==> exists|k: int|
                    0 <= k < ranges@.len() && (#[trigger] ranges@[k]).offset == reflections@[j].push_constant_offset
                        && ranges@[k].size == reflections@[j].push_constant_size,
        decreases reflections@.len() - n,
    {
        let reflection = &reflections[n];
        let offset = reflection.push_constant_offset;
        let size = reflection.push_constant_size;
        let stage = reflection.stage;
        let ghost before = ranges@;
        let (found, at) = if size != 0 { range_position(&ranges, offset, size) } else { (false, 0) };
        if size != 0 {
            if found {
                let old_range = ranges[at];
                ranges.set(at, PushConstantRange { stage_flags: old_range.stage_flags | stage, offset, size });
            } else {
                ranges.insert(at, PushConstantRange { stage_flags: stage, offset, size });
                proof {
                    assert forall|i: int, j: int| 0 <= i < j < ranges@.len() implies range_before(
                        #[trigger] ranges@[i],
                        #[trigger] ranges@[j],
                    ) by {
                        if i < at && j == at {
                        } else if i == at && j > at {
                            assert(ranges@[j] == before[j - 1]);
                            assert(!range_before(before[j - 1], PushConstantRange { stage_flags: 0, offset, size }));
                        } else if i < at && j > at {
                            assert(ranges@[j] == before[j - 1]);
                            assert(range_before(before[i], before[j - 1]));
                        } else if i > at {
                            assert(ranges@[i] == before[i - 1] && ranges@[j] == before[j - 1]);
                            assert(range_before(before[i - 1], before[j - 1]));
                        }
                    }
                }
            }
        }
        proof {
            assert forall|k: int|
                0 <= k < ranges@.len() implies pushes(reflections@, n + 1, (#[trigger] ranges@[k]).offset, ranges@[k].size)
                && ranges@[k].stage_flags == stages_pushing(reflections@, n + 1, ranges@[k].offset, ranges@[k].size) by {
                let (o, z) = (ranges@[k].offset, ranges@[k].size);
                assert(stages_pushing(reflections@, n + 1, o, z) == (stages_pushing(reflections@, n as int, o, z) | if size
                    != 0 && offset == o && size == z {
                    stage
                } else {
                    0
                }));
                if size != 0 && offset == o && size == z {
                    assert(reflections@[n as int].push_constant_size != 0);
                    if exists|q: int| 0 <= q < before.len() && before[q].offset == o && before[q].size == z {
                        let q = choose|q: int| 0 <= q < before.len() && before[q].offset == o && before[q].size == z;
                        assert(pushes(reflections@, n as int, before[q].offset, before[q].size));
                    } else {
                        assert forall|j: int| 0 <= j < n implies !((#[trigger] reflections@[j]).push_constant_size != 0
                            && reflections@[j].push_constant_offset == o && reflections@[j].push_constant_size == z) by {
                            if reflections@[j].push_constant_size != 0 && reflections@[j].push_constant_offset == o
                                && reflections@[j].push_constant_size == z {
                                let q = choose|q: int|
                                    0 <= q < before.len() && (#[trigger] before[q]).offset == reflections@[j].push_constant_offset
                                        && before[q].size == reflections@[j].push_constant_size;
                            }
                        }
                        lemma_nothing_pushed(reflections@, n as int, o, z);
                        assert(0u32 | stage == stage) by (bit_vector);
                    }
                } else {
                    let q = if size != 0 && !found && k >= at {
                        k - 1
                    } else {
                        k
                    };
                    assert(0 <= q < before.len() && before[q] == ranges@[k]);
                    let w = ranges@[k].stage_flags;
                    assert(w | 0u32 == w) by (bit_vector);
                    let j = choose|j: int|
                        0 <= j < n && (#[trigger] reflections@[j]).push_constant_size != 0
                            && reflections@[j].push_constant_offset == o && reflections@[j].push_constant_size == z;
                    assert(pushes(reflections@, n + 1, o, z)) by {
                        assert(reflections@[j].push_constant_size != 0);
                    }
                }
            }
            assert forall|j: int|
                0 <= j < n + 1 && (#[trigger] reflections@[j]).push_constant_size != 0 implies exists|k: int|
                0 <= k < ranges@.len() && (#[trigger] ranges@[k]).offset == reflections@[j].push_constant_offset
                    && ranges@[k].size == reflections@[j].push_constant_size by {
                if j < n {
                    let k = choose|k: int|
                        0 <= k < before.len() && (#[trigger] before[k]).offset == reflections@[j].push_constant_offset
                            && before[k].size == reflections@[j].push_constant_size;
                    if found || size == 0 {
                        assert(ranges@[k].offset == before[k].offset && ranges@[k].size == before[k].size);
                    } else if k < at {
                        assert(ranges@[k] == before[k]);
                    } else {
                        assert(ranges@[k + 1] == before[k]);
                    }
                } else {
                    assert(ranges@[at as int].offset == offset && ranges@[at as int].size == size);
                }
            }
        }
        n = n + 1;
    }
    ranges
}

/// A set handed to a pipeline whole, with raw handles of its layout and of the set.
#[derive(Debug, Clone, Copy, PartialEq, Eq, Structural)]
pub struct BindlessDescriptorSet {
    pub index: u32,
    pub layout: u64,
    pub set: u64,
}

/// A descriptor set layout: its raw handle, the raw descriptor types and counts it holds, and
/// whether the pipeline created it.
#[derive(Debug, Clone, Default)]
pub struct SetLayout {
    pub handle: u64,
    pub sizes: Vec<(i32, u32)>,
    pub owned: bool,
}

/// A pipeline layout: its raw handle, its sets, its push-constant ranges and the set handed
/// to it whole.
#[derive(Debug, Default)]
pub struct PipelineLayout {
    pub handle: u64,
    pub sets: Vec<SetLayout>,
    pub push_constant_ranges: Vec<PushConstantRange>,
    pub bindless: Option<BindlessDescriptorSet>,
}

/// The parts of the first `n` ranges that a push of the bytes from `offset` to `end` lands on,
/// each with the stages of its range, where it starts and how long it is.
pub open spec fn cover_spec(ranges: Seq<PushConstantRange>, n: int, offset: u32, end: u32) -> Seq<(u32, u32, u32)>
    decreases n,
{
    if n <= 0 {
        seq![]
    } else {
        let r = ranges[n - 1];
        let start = if r.offset > offset { r.offset } else { offset };
        let stop = if r.offset + r.size < end { (r.offset + r.size) as u32 } else { end };
        cover_spec(ranges, n - 1, offset, end) + if stop > start {
            seq![(r.stage_flags, start, (stop - start) as u32)]
        } else {
            seq![]
        }
    }
}

/// The end of a push of `size` bytes at `offset`, held at the largest offset where it would
/// reach past it.
pub open spec fn saturated_end(offset: u32, size: u32) -> u32 {
    if offset + size > u32::MAX { u32::MAX } else { (offset + size) as u32 }
}

impl PipelineLayout {
    /// Every range each range has no end past the 32-bit offsets.
    pub open spec fn ranges_fit(&self) -> bool {
        forall|k: int|
            0 <= k < self.push_constant_ranges@.len() ==> (#[trigger] self.push_constant_ranges@[k]).offset
                + self.push_constant_ranges@[k].size <= u32::MAX
    }

    /// The pieces of a push of `size` bytes at `offset` that the layout's ranges cover, in the
    /// order of the ranges, each clipped to its range: its stages, where it starts, how long it
    /// is. A range the push does not reach adds nothing.
    pub fn cover(&self, offset: u32, size: u32) -> (r: Vec<(u32, u32, u32)>)
        requires
            self.ranges_fit(),
        ensures
            r@ == cover_spec(
                self.push_constant_ranges@,
                self.push_constant_ranges@.len() as int,
                offset,
                saturated_end(offset, size),
            ),
    {
        let end = offset.saturating_add(size);
        let ranges = &self.push_constant_ranges;
        let mut out: Vec<(u32, u32, u32)> = Vec::new();
        let mut i: usize = 0;
        while i < ranges.len()
            invariant
                i <= ranges@.len(),
                ranges@ == self.push_constant_ranges@,
                self.ranges_fit(),
                end == saturated_end(offset, size),
                out@ == cover_spec(ranges@, i as int, offset, end),
            decreases ranges@.len() - i,
        {
            let range = ranges[i];
            assert(range.offset + range.size <= u32::MAX) by {
                assert(self.push_constant_ranges@[i as int] == range);
            }
            let start = if range.offset > offset { range.offset } else { offset };
            let reach = range.offset + range.size;
            let stop = if reach < end { reach } else { end };
            if stop > start {
                out.push((range.stage_flags, start, stop - start));
            }
            i = i + 1;
        }
        out
    }
}

/// What a binding looks like to the pipeline: its raw type, how many descriptors, and whether
/// that count varies.
pub open spec fn shape(binding: DescriptorBinding) -> (i32, u32, bool) {
    (binding.descriptor_type, binding.count, binding.variable_count)
}

/// The bindings of the first `n` reflections, reflection by reflection.
pub open spec fn all_bindings(reflections: Seq<Reflection>, n: int) -> Seq<DescriptorBinding>
    decreases n,
{
    if n <= 0 {
        seq![]
    } else {
        all_bindings(reflections, n - 1) + reflections[n - 1].bindings@
    }
}

/// Outside the bindless set, a binding has to be a single sampled image or a single combined
/// image sampler.
pub open spec fn ordinary_binding_ok(binding: DescriptorBinding) -> bool {
    (binding.descriptor_type == DESCRIPTOR_TYPE_SAMPLED_IMAGE || binding.descriptor_type
        == DESCRIPTOR_TYPE_COMBINED_IMAGE_SAMPLER) && binding.count == 1 && !binding.variable_count
}

/// The bindings the stages declare fit together: a bindless set has handles that are not
/// null, stages that declare the same binding declare it with the same shape, and every
/// binding outside the bindless set is a single sampled image or combined image sampler.
pub open spec fn bindings_valid(bindings: Seq<DescriptorBinding>, bindless: Option<BindlessDescriptorSet>) -> bool {
    &&& !(bindless matches Some(b) && (b.layout == 0 || b.set == 0))
    &&& forall|i: int, j: int|
        0 <= i < j < bindings.len() && (#[trigger] bindings[i]).set == (#[trigger] bindings[j]).set && bindings[i].binding
            == bindings[j].binding ==> shape(bindings[i]) == shape(bindings[j])
    &&& forall|i: int|
        0 <= i < bindings.len() && !(bindless matches Some(b) && b.index == (#[trigger] bindings[i]).set)
            ==> ordinary_binding_ok(bindings[i])
}

/// Whether the descriptor bindings of `reflections` fit together, as [`bindings_valid`] says.
pub fn validate_descriptor_bindings(reflections: &Vec<Reflection>, bindless: Option<BindlessDescriptorSet>) -> (r: Result<
    (),
    (),
>)
    ensures
        r is Ok <==> bindings_valid(all_bindings(reflections@, reflections@.len() as int), bindless),
{
    if let Some(external) = bindless {
        if external.layout == 0 || external.set == 0 {
            return Err(());
        }
    }
    let mut seen: Vec<DescriptorBinding> = Vec::new();
    let mut n: usize = 0;
    while n < reflections.len()
        invariant
            n <= reflections@.len(),
            !(bindless matches Some(b) && (b.layout == 0 || b.set == 0)),
            seen@ == all_bindings(reflections@, n as int),
            bindings_valid(seen@, bindless),
        decreases reflections@.len() - n,
    {
        let bindings = &reflections[n].bindings;
        let mut k: usize = 0;
        while k < bindings.len()
            invariant
                k <= bindings@.len(),
                n < reflections@.len(),
                bindings@ == reflections@[n as int].bindings@,
                !(bindless matches Some(b) && (b.layout == 0 || b.set == 0)),
                seen@ == all_bindings(reflections@, n as int) + bindings@.subrange(0, k as int),
                bindings_valid(seen@, bindless),
            decreases bindings@.len() - k,
        {
            let binding = bindings[k];
            let mut q: usize = 0;
            while q < seen.len()
                invariant
                    q <= seen@.len(),
                    n < reflections@.len(),
                    k < bindings@.len(),
                    bindings@ == reflections@[n as int].bindings@,
                    binding == bindings@[k as int],
                    seen@ == all_bindings(reflections@, n as int) + bindings@.subrange(0, k as int),
                    forall|p: int|
                        0 <= p < q && (#[trigger] seen@[p]).set == binding.set && seen@[p].binding == binding.binding
                            ==> shape(seen@[p]) == shape(binding),
                decreases seen@.len() - q,
            {
                let other = seen[q];
                if other.set == binding.set && other.binding == binding.binding && !(other.descriptor_type
                    == binding.descriptor_type && other.count == binding.count && other.variable_count
                    == binding.variable_count) {
                    proof {
                        lemma_not_valid_after(reflections@, n as int, k as int, seen@, q as int, bindless);
                    }
                    return Err(());
                }
                q = q + 1;
            }
            let in_bindless = match bindless {
                Some(external) => external.index == binding.set,
                None => false,
            };
            if !in_bindless && !((binding.descriptor_type == DESCRIPTOR_TYPE_SAMPLED_IMAGE || binding.descriptor_type
                == DESCRIPTOR_TYPE_COMBINED_IMAGE_SAMPLER) && binding.count == 1 && !binding.variable_count) {
                proof {
                    lemma_unsupported_after(reflections@, n as int, k as int, bindless);
                }
                return Err(());
            }
            let ghost before = seen@;
            seen.push(binding);
            proof {
                assert(bindings@.subrange(0, k + 1) =~= bindings@.subrange(0, k as int).push(binding));
                assert(seen@ == before.push(binding));
                assert forall|i: int, j: int|
                    0 <= i < j < seen@.len() && (#[trigger] seen@[i]).set == (#[trigger] seen@[j]).set && seen@[i].binding
                        == seen@[j].binding implies shape(seen@[i]) == shape(seen@[j]) by {
                    if j == before.len() {
                        assert(seen@[i] == before[i]);
                    } else {
                        assert(seen@[i] == before[i] && seen@[j] == before[j]);
                    }
                }
                assert forall|i: int|
                    0 <= i < seen@.len() && !(bindless matches Some(b) && b.index == (#[trigger] seen@[i]).set)
                        implies ordinary_binding_ok(seen@[i]) by {
                    if i < before.len() {
                        assert(seen@[i] == before[i]);
                    }
                }
            }
            k = k + 1;
        }
        proof {
            assert(bindings@.subrange(0, bindings@.len() as int) =~= bindings@);
        }
        n = n + 1;
    }
    Ok(())
}

/// The bindings of the first `n` reflections and of the first `k` of the next one stand
/// before all the bindings there are.
proof fn lemma_prefix_of_all(reflections: Seq<Reflection>, n: int, k: int)
    requires
        0 <= n < reflections.len(),
        0 <= k < reflections[n].bindings@.len(),
    ensures
        all_bindings(reflections, n) + reflections[n].bindings@.subrange(0, k) + seq![reflections[n].bindings@[k]]
            == all_bindings(reflections, reflections.len() as int).subrange(0, all_bindings(reflections, n).len() + k + 1),
        all_bindings(reflections, n).len() + k + 1 <= all_bindings(reflections, reflections.len() as int).len(),
    decreases reflections.len() - n,
{
    lemma_all_prefix(reflections, n + 1, reflections.len() as int);
    let a = all_bindings(reflections, n + 1);
    assert(a == all_bindings(reflections, n) + reflections[n].bindings@);
    let full = all_bindings(reflections, reflections.len() as int);
    assert(full.subrange(0, a.len() as int) == a);
    assert(all_bindings(reflections, n) + reflections[n].bindings@.subrange(0, k) + seq![reflections[n].bindings@[k]]
        =~= a.subrange(0, all_bindings(reflections, n).len() + k + 1));
}

/// The bindings of fewer reflections are a prefix of those of more.
proof fn lemma_all_prefix(reflections: Seq<Reflection>, m: int, n: int)
    requires
        0 <= m <= n <= reflections.len(),
    ensures
        all_bindings(reflections, m).len() <= all_bindings(reflections, n).len(),
        all_bindings(reflections, n).subrange(0, all_bindings(reflections, m).len() as int) == all_bindings(reflections, m),
    decreases n - m,
{
    if m < n {
        lemma_all_prefix(reflections, m, n - 1);
        let p = all_bindings(reflections, n - 1);
        assert(all_bindings(reflections, n).subrange(0, p.len() as int) =~= p);
        assert(all_bindings(reflections, n).subrange(0, all_bindings(reflections, m).len() as int) =~= p.subrange(
            0,
            all_bindings(reflections, m).len() as int,
        ));
    } else {
        assert(all_bindings(reflections, n).subrange(0, all_bindings(reflections, m).len() as int) =~= all_bindings(
            reflections,
            m,
        ));
    }
}

proof fn lemma_not_valid_after(
    reflections: Seq<Reflection>,
    n: int,
    k: int,
    seen: Seq<DescriptorBinding>,
    q: int,
    bindless: Option<BindlessDescriptorSet>,
)
    requires
        0 <= n < reflections.len(),
        0 <= k < reflections[n].bindings@.len(),
        seen == all_bindings(reflections, n) + reflections[n].bindings@.subrange(0, k),
        0 <= q < seen.len(),
        seen[q].set == reflections[n].bindings@[k].set && seen[q].binding == reflections[n].bindings@[k].binding,
        shape(seen[q]) != shape(reflections[n].bindings@[k]),
    ensures
        !bindings_valid(all_bindings(reflections, reflections.len() as int), bindless),
{
    lemma_prefix_of_all(reflections, n, k);
    let full = all_bindings(reflections, reflections.len() as int);
    let j = seen.len() as int;
    let b = reflections[n].bindings@[k];
    let head = full.subrange(0, j + 1);
    assert(head == seen + seq![b]);
    assert(head[q] == full[q] && head[j] == full[j]);
    assert((seen + seq![b])[q] == seen[q]);
    assert((seen + seq![b])[j] == b);
}

proof fn lemma_unsupported_after(reflections: Seq<Reflection>, n: int, k: int, bindless: Option<BindlessDescriptorSet>)
    requires
        0 <= n < reflections.len(),
        0 <= k < reflections[n].bindings@.len(),
        !(bindless matches Some(b) && b.index == reflections[n].bindings@[k].set),
        !ordinary_binding_ok(reflections[n].bindings@[k]),
    ensures
        !bindings_valid(all_bindings(reflections, reflections.len() as int), bindless),
{
    lemma_prefix_of_all(reflections, n, k);
    let full = all_bindings(reflections, reflections.len() as int);
    let b = reflections[n].bindings@[k];
    let seen = all_bindings(reflections, n) + reflections[n].bindings@.subrange(0, k);
    let j = seen.len() as int;
    let head = full.subrange(0, j + 1);
    assert(head == seen + seq![b]);
    assert(head[j] == full[j]);
    assert((seen + seq![b])[j] == b);
}

/// Bindings are ordered by their set, then by their binding.
pub open spec fn binding_before(a: DescriptorBinding, b: DescriptorBinding) -> bool {
    a.set < b.set || (a.set == b.set && a.binding < b.binding)
}

/// The first binding among `bindings` at `set` and `binding`.
pub open spec fn first_at(bindings: Seq<DescriptorBinding>, n: int, set: u32, binding: u32) -> Option<DescriptorBinding>
    decreases n,
{
    if n <= 0 {
        None
    } else {
        match first_at(bindings, n - 1, set, binding) {
            Some(b) => Some(b),
            None => if bindings[n - 1].set == set && bindings[n - 1].binding == binding {
                Some(bindings[n - 1])
            } else {
                None
            },
        }
    }
}

/// The stages of every one of the first `n` bindings at `set` and `binding`, together.
pub open spec fn stages_at(bindings: Seq<DescriptorBinding>, n: int, set: u32, binding: u32) -> u32
    decreases n,
{
    if n <= 0 {
        0
    } else {
        stages_at(bindings, n - 1, set, binding) | if bindings[n - 1].set == set && bindings[n - 1].binding == binding {
            bindings[n - 1].stages
        } else {
            0
        }
    }
}

/// Some binding of `merged` stands at `set` and `binding`.
pub open spec fn keyed(merged: Seq<DescriptorBinding>, set: u32, binding: u32) -> bool {
    exists|k: int| 0 <= k < merged.len() && (#[trigger] merged[k]).set == set && merged[k].binding == binding
}

/// Two bindings are the same but for the stages that declare them.
pub open spec fn same_but_stages(a: DescriptorBinding, b: DescriptorBinding) -> bool {
    a.set == b.set && a.binding == b.binding && a.descriptor_type == b.descriptor_type && a.count == b.count
        && a.variable_count == b.variable_count && a.access == b.access
}

/// Where a binding at `set` and `binding` stands in the sorted `merged`, or where it would go.
fn binding_position(merged: &Vec<DescriptorBinding>, set: u32, binding: u32) -> (r: (bool, usize))
    requires
        forall|i: int, j: int| 0 <= i < j < merged@.len() ==> binding_before(#[trigger] merged@[i], #[trigger] merged@[j]),
    ensures
        r.1 <= merged@.len(),
        r.0 ==> r.1 < merged@.len() && merged@[r.1 as int].set == set && merged@[r.1 as int].binding == binding,
        !r.0 ==> forall|i: int|
            0 <= i < merged@.len() ==> (i < r.1 <==> ((#[trigger] merged@[i]).set < set || (merged@[i].set == set
                && merged@[i].binding < binding))) && !(merged@[i].set == set && merged@[i].binding == binding),
{
    let mut i: usize = 0;
    while i < merged.len()
        invariant
            i <= merged@.len(),
            forall|q: int|
                0 <= q < i ==> (#[trigger] merged@[q]).set < set || (merged@[q].set == set && merged@[q].binding < binding),
            forall|a: int, b: int| 0 <= a < b < merged@.len() ==> binding_before(#[trigger] merged@[a], #[trigger] merged@[b]),
        decreases merged@.len() - i,
    {
        let here = merged[i];
        if here.set == set && here.binding == binding {
            return (true, i);
        }
        if !(here.set < set || (here.set == set && here.binding < binding)) {
            proof {
                assert forall|q: int| 0 <= q < merged@.len() implies (q < i <==> ((#[trigger] merged@[q]).set < set || (
                merged@[q].set == set && merged@[q].binding < binding))) && !(merged@[q].set == set && merged@[q].binding
                    == binding) by {
                    if q > i {
                        assert(binding_before(merged@[i as int], merged@[q]));
                    }
                }
            }
            return (false, i);
        }
        i = i + 1;
    }
    (false, i)
}

/// The bindings of several stages as one pipeline sees them: one per set and binding, as the
/// first stage to declare it does, read by the stages of every stage that declares it; in
/// set, then binding order.
pub fn merged_bindings(bindings: &Vec<DescriptorBinding>) -> (r: Vec<DescriptorBinding>)
    ensures
        forall|i: int, j: int| 0 <= i < j < r@.len() ==> binding_before(#[trigger] r@[i], #[trigger] r@[j]),
        forall|k: int|
            0 <= k < r@.len() ==> (first_at(bindings@, bindings@.len() as int, (#[trigger] r@[k]).set, r@[k].binding) matches Some(f)
                && same_but_stages(f, r@[k]) && r@[k].stages == stages_at(
                bindings@,
                bindings@.len() as int,
                r@[k].set,
                r@[k].binding,
            )),
        forall|j: int| 0 <= j < bindings@.len() ==> keyed(r@, (#[trigger] bindings@[j]).set, bindings@[j].binding),
{
    let mut merged: Vec<DescriptorBinding> = Vec::new();
    let mut n: usize = 0;
    while n < bindings.len()
        invariant
            n <= bindings@.len(),
            forall|i: int, j: int| 0 <= i < j < merged@.len() ==> binding_before(#[trigger] merged@[i], #[trigger] merged@[j]),
            forall|k: int|
                0 <= k < merged@.len() ==> (first_at(bindings@, n as int, (#[trigger] merged@[k]).set, merged@[k].binding) matches Some(f)
                    && same_but_stages(f, merged@[k]) && merged@[k].stages
                    == stages_at(bindings@, n as int, merged@[k].set, merged@[k].binding)),
            forall|j: int|
                0 <= j < n ==> exists|k: int|
                    0 <= k < merged@.len() && (#[trigger] merged@[k]).set == (#[trigger] bindings@[j]).set
                        && merged@[k].binding == bindings@[j].binding,
        decreases bindings@.len() - n,
    {
        let b = bindings[n];
        let ghost before = merged@;
        let (found, at) = binding_position(&merged, b.set, b.binding);
        if found {
            let old_entry = merged[at];
            merged.set(at, DescriptorBinding { stages: old_entry.stages | b.stages, ..old_entry });
        } else {
            merged.insert(at, b);
            proof {
                assert forall|i: int, j: int| 0 <= i < j < merged@.len() implies binding_before(
                    #[trigger] merged@[i],
                    #[trigger] merged@[j],
                ) by {
                    if i < at && j > at {
                        assert(merged@[j] == before[j - 1]);
                        assert(binding_before(before[i], before[j - 1]));
                    } else if i == at && j > at {
                        assert(merged@[j] == before[j - 1]);
                    } else if i > at {
                        assert(merged@[i] == before[i - 1] && merged@[j] == before[j - 1]);
                        assert(binding_before(before[i - 1], before[j - 1]));
                    }
                }
            }
        }
        proof {
            assert forall|k: int|
                0 <= k < merged@.len() implies first_at(bindings@, n + 1, (#[trigger] merged@[k]).set, merged@[k].binding) matches Some(f)
                && same_but_stages(f, merged@[k]) && merged@[k].stages == stages_at(
                bindings@,
                n + 1,
                merged@[k].set,
                merged@[k].binding,
            ) by {
                let (st, bi) = (merged@[k].set, merged@[k].binding);
                if b.set == st && b.binding == bi {
                    if found {
                        assert(k == at);
                    } else {
                        assert(k == at) by {
                            if k != at {
                                let q = if k < at { k } else { k - 1 };
                                assert(merged@[k] == before[q]);
                            }
                        }
                        assert forall|j: int| 0 <= j < n implies !((#[trigger] bindings@[j]).set == st
                            && bindings@[j].binding == bi) by {
                            if bindings@[j].set == st && bindings@[j].binding == bi {
                                let q = choose|q: int|
                                    0 <= q < before.len() && (#[trigger] before[q]).set == bindings@[j].set
                                        && before[q].binding == bindings@[j].binding;
                            }
                        }
                        lemma_none_at(bindings@, n as int, st, bi);
                        let s = b.stages;
                        assert(0u32 | s == s) by (bit_vector);
                    }
                } else {
                    let q = if !found && k > at { k - 1 } else { k };
                    assert(0 <= q < before.len() && before[q].set == st && before[q].binding == bi);
                    if found {
                        assert(k != at);
                    }
                    assert(merged@[k] == before[q]);
                    let w = merged@[k].stages;
                    assert(w | 0u32 == w) by (bit_vector);
                }
            }
            assert forall|j: int| 0 <= j < n + 1 implies exists|k: int|
                0 <= k < merged@.len() && (#[trigger] merged@[k]).set == (#[trigger] bindings@[j]).set
                    && merged@[k].binding == bindings@[j].binding by {
                if j < n {
                    let k = choose|k: int|
                        0 <= k < before.len() && (#[trigger] before[k]).set == bindings@[j].set && before[k].binding
                            == bindings@[j].binding;
                    if found || k < at {
                        assert(merged@[k].set == before[k].set && merged@[k].binding == before[k].binding);
                    } else {
                        assert(merged@[k + 1] == before[k]);
                    }
                } else {
                    assert(merged@[at as int].set == b.set && merged@[at as int].binding == b.binding);
                }
            }
        }
        n = n + 1;
    }
    proof {
        assert forall|j: int| 0 <= j < bindings@.len() implies keyed(merged@, (#[trigger] bindings@[j]).set, bindings@[j].binding) by {
            assert(0 <= j < n);
            let x = bindings@[j];
        }
    }
    merged
}

proof fn lemma_none_at(bindings: Seq<DescriptorBinding>, n: int, set: u32, binding: u32)
    requires
        forall|j: int| 0 <= j < n ==> !((#[trigger] bindings[j]).set == set && bindings[j].binding == binding),
    ensures
        first_at(bindings, n, set, binding) is None,
        stages_at(bindings, n, set, binding) == 0,
    decreases n,
{
    if n > 0 {
        lemma_none_at(bindings, n - 1, set, binding);
        assert(0u32 | 0u32 == 0u32) by (bit_vector);
    }
}

/// The bindings of every stage, stage by stage, then merged as [`merged_bindings`] does.
pub fn reflected_bindings(reflections: &Vec<Reflection>) -> (r: Vec<DescriptorBinding>)
    ensures
        r@ == all_bindings(reflections@, reflections@.len() as int),
{
    let mut out: Vec<DescriptorBinding> = Vec::new();
    let mut n: usize = 0;
    while n < reflections.len()
        invariant
            n <= reflections@.len(),
            out@ == all_bindings(reflections@, n as int),
        decreases reflections@.len() - n,
    {
        let bindings = &reflections[n].bindings;
        let mut k: usize = 0;
        while k < bindings.len()
            invariant
                k <= bindings@.len(),
                n < reflections@.len(),
                bindings@ == reflections@[n as int].bindings@,
                out@ == all_bindings(reflections@, n as int) + bindings@.subrange(0, k as int),
            decreases bindings@.len() - k,
        {
            out.push(bindings[k]);
            proof {
                assert(bindings@.subrange(0, k + 1) =~= bindings@.subrange(0, k as int).push(bindings@[k as int]));
            }
            k = k + 1;
        }
        proof {
            assert(bindings@.subrange(0, bindings@.len() as int) =~= bindings@);
        }
        n = n + 1;
    }
    out
}

/// The words of `spirv`, held.
fn words_of(spirv: &[u32]) -> (r: Vec<u32>)
    ensures
        r@ == spirv@,
{
    let mut out: Vec<u32> = Vec::with_capacity(spirv.len());
    let mut i: usize = 0;
    while i < spirv.len()
        invariant
            i <= spirv@.len(),
            out@ == spirv@.subrange(0, i as int),
        decreases spirv@.len() - i,
    {
        out.push(spirv[i]);
        proof {
            assert(spirv@.subrange(0, i + 1) =~= spirv@.subrange(0, i as int).push(spirv@[i as int]));
        }
        i = i + 1;
    }
    proof {
        assert(spirv@.subrange(0, spirv@.len() as int) =~= spirv@);
    }
    out
}

/// What a graphics pipeline is declared with: the SPIR-V of each of its shaders, and the set
/// handed to it whole, if any.
#[derive(Debug, Clone, Default)]
pub struct GraphicsPipelineInfo {
    pub shaders: Vec<Vec<u32>>,
    pub bindless: Option<BindlessDescriptorSet>,
}

impl GraphicsPipelineInfo {
    /// No shaders, no bindless set.
    pub fn new() -> (r: GraphicsPipelineInfo)
        ensures
            r.shaders@.len() == 0,
            r.bindless is None,
    {
        GraphicsPipelineInfo { shaders: Vec::new(), bindless: None }
    }

    /// The same, with one more shader after the others.
    pub fn with_shader(self, spirv: &[u32]) -> (r: GraphicsPipelineInfo)
        ensures
            r.shaders@.len() == self.shaders@.len() + 1,
            forall|k: int| 0 <= k < self.shaders@.len() ==> #[trigger] r.shaders@[k] == self.shaders@[k],
            r.shaders@[self.shaders@.len() as int]@ == spirv@,
            r.bindless == self.bindless,
    {
        let mut shaders = self.shaders;
        shaders.push(words_of(spirv));
        GraphicsPipelineInfo { shaders, bindless: self.bindless }
    }

    /// The same, with the set at `index` handed to the pipeline whole.
    pub fn with_bindless_set(self, index: u32, layout: u64, set: u64) -> (r: GraphicsPipelineInfo)
        ensures
            r.shaders == self.shaders,
            r.bindless == Some(BindlessDescriptorSet { index, layout, set }),
    {
        GraphicsPipelineInfo { shaders: self.shaders, bindless: Some(BindlessDescriptorSet { index, layout, set }) }
    }
}

/// What a compute pipeline is declared with: the SPIR-V of its shader, and the set handed to
/// it whole, if any.
#[derive(Debug, Clone, Default)]
pub struct ComputePipelineInfo {
    pub shader: Vec<u32>,
    pub bindless: Option<BindlessDescriptorSet>,
}

impl ComputePipelineInfo {
    pub fn new(spirv: &[u32]) -> (r: ComputePipelineInfo)
        ensures
            r.shader@ == spirv@,
            r.bindless is None,
    {
        ComputePipelineInfo { shader: words_of(spirv), bindless: None }
    }

    /// The same, with the set at `index` handed to the pipeline whole.
    pub fn with_bindless_set(self, index: u32, layout: u64, set: u64) -> (r: ComputePipelineInfo)
        ensures
            r.shader == self.shader,
            r.bindless == Some(BindlessDescriptorSet { index, layout, set }),
    {
        ComputePipelineInfo { shader: self.shader, bindless: Some(BindlessDescriptorSet { index, layout, set }) }
    }
}

} // verus!
