use vstd::prelude::*;

use crate::access::{Access, buffer_usage_of, COLOR_BITS, DEPTH_STENCIL_BITS, BUFFER_USAGE_INDEX_BUFFER, BUFFER_USAGE_INDIRECT_BUFFER,
    BUFFER_USAGE_SHADER_DEVICE_ADDRESS, BUFFER_USAGE_TRANSFER_SRC, BUFFER_USAGE_VERTEX_BUFFER, image_usage_of};
use crate::ids::{PipelineId, ValueId, INVALID_ID};
use crate::ir::{Constant, DispatchSize, IR, MAX_RESOLVE_DEPTH};
use crate::module::{image_type_spec, is_buffer, resolve_image, resource_root, root_spec, ImageType};
use crate::state::{
    broadcast_blend, max_int, padded, preset_state, set_slot, BlendPreset, ColorBlendAttachmentState, COMPARE_OP_LESS,
    DepthState, DYNAMIC_SCISSOR, DYNAMIC_VIEWPORT, DynamicStateFlags, PassState, RasterizationState, Rect, Rect2D,
    RenderingState, SAMPLE_COUNT_1, StateChange, TOPOLOGY_TRIANGLE_LIST, Viewport,
};
use crate::sync::{lemma_filter_push, lemma_prepared_after, lemma_prepared_filter, orders_writes, reversed, writes_prepared};

verus! {

pub open spec fn is_type_node() -> spec_fn((ValueId, IR)) -> bool {
    |x: (ValueId, IR)| x.1 is Type
}

pub open spec fn is_constant_node() -> spec_fn((ValueId, IR)) -> bool {
    |x: (ValueId, IR)| x.1 is Constant
}

pub open spec fn is_other_node() -> spec_fn((ValueId, IR)) -> bool {
    |x: (ValueId, IR)| !(x.1 is Type) && !(x.1 is Constant)
}

/// The types first, then the constants, then everything else, each in the order given.
pub fn globals_first(nodes: Vec<(ValueId, IR)>) -> (r: Vec<(ValueId, IR)>)
    ensures
        r@ == nodes@.filter(is_type_node()) + nodes@.filter(is_constant_node()) + nodes@.filter(is_other_node()),
{
    let ghost all = nodes@;
    let mut rest = reversed(nodes);
    let mut types: Vec<(ValueId, IR)> = Vec::new();
    let mut constants: Vec<(ValueId, IR)> = Vec::new();
    let mut others: Vec<(ValueId, IR)> = Vec::new();
    proof {
        assert(all.subrange(0, 0) =~= Seq::<(ValueId, IR)>::empty());
        reveal_with_fuel(Seq::filter, 1);
    }
    while rest.len() > 0
        invariant
            rest@.len() <= all.len(),
            forall|i: int| 0 <= i < rest@.len() ==> #[trigger] rest@[i] == all[all.len() - 1 - i],
            types@ == all.subrange(0, all.len() - rest@.len()).filter(is_type_node()),
            constants@ == all.subrange(0, all.len() - rest@.len()).filter(is_constant_node()),
            others@ == all.subrange(0, all.len() - rest@.len()).filter(is_other_node()),
        decreases rest@.len(),
    {
        let ghost done = all.len() - rest@.len();
        let node = rest.pop().unwrap();
        assert(node == all[done]);
        proof {
            let prefix = all.subrange(0, done);
            assert(all.subrange(0, done + 1) =~= prefix.push(node));
            lemma_filter_push(prefix, node, is_type_node());
            lemma_filter_push(prefix, node, is_constant_node());
            lemma_filter_push(prefix, node, is_other_node());
        }
        match &node.1 {
            IR::Type(_) => types.push(node),
            IR::Constant(_) => constants.push(node),
            _ => others.push(node),
        }
    }
    proof {
        assert(all.subrange(0, all.len() as int) =~= all);
    }
    types.append(&mut constants);
    types.append(&mut others);
    types
}

/// What one value was found to be used for, merged over every use.
fn add_usage(usages: &mut Vec<(ValueId, u32)>, id: ValueId, usage: u32)
    ensures
        (exists|i: int|
            0 <= i < old(usages)@.len() && (#[trigger] old(usages)@[i]).0 == id && (forall|j: int|
                0 <= j < i ==> (#[trigger] old(usages)@[j]).0 != id) && final(usages)@ == old(usages)@.update(
                i,
                (id, old(usages)@[i].1 | usage),
            )) || ((forall|j: int| 0 <= j < old(usages)@.len() ==> (#[trigger] old(usages)@[j]).0 != id)
            && final(usages)@ == old(usages)@.push((id, usage))),
{
    let mut i: usize = 0;
    while i < usages.len()
        invariant
            i <= usages@.len(),
            usages@ == old(usages)@,
            forall|j: int| 0 <= j < i ==> (#[trigger] old(usages)@[j]).0 != id,
        decreases usages@.len() - i,
    {
        if usages[i].0 == id {
            let merged = usages[i].1 | usage;
            usages.set(i, (id, merged));
            return;
        }
        i = i + 1;
    }
    usages.push((id, usage));
}

fn usage_of(usages: &Vec<(ValueId, u32)>, id: ValueId) -> (r: u32)
    ensures
        (exists|i: int|
            0 <= i < usages@.len() && (#[trigger] usages@[i]) == (id, r) && (forall|j: int|
                0 <= j < i ==> (#[trigger] usages@[j]).0 != id)) || ((forall|j: int|
            0 <= j < usages@.len() ==> (#[trigger] usages@[j]).0 != id) && r == 0),
{
    let mut i: usize = 0;
    while i < usages.len()
        invariant
            i <= usages@.len(),
            forall|j: int| 0 <= j < i ==> (#[trigger] usages@[j]).0 != id,
        decreases usages@.len() - i,
    {
        if usages[i].0 == id {
            proof {
                assert(usages@[i as int] == (id, usages@[i as int].1));
            }
            return usages[i].1;
        }
        i = i + 1;
    }
    0
}

/// The bits an access constant holds.
pub open spec fn access_constant_bits(ir: IR) -> Option<u32> {
    match ir {
        IR::Constant(Constant::Access(a)) => Some(a.0),
        _ => None,
    }
}

/// The bits of the access constant `id`: what the first of `nodes` under `id` holds, or else
/// what the recorded instruction `id` holds.
pub open spec fn access_bits_spec(instrs: Seq<IR>, nodes: Seq<(ValueId, IR)>, id: ValueId) -> Option<u32> {
    match first_bits(nodes, id, 0) {
        Some(bits) => bits,
        None => if id.0 < instrs.len() {
            access_constant_bits(instrs[id.0 as int])
        } else {
            None
        },
    }
}

/// What the first entry of `nodes` from `i` on that is under `id` holds as an access constant,
/// or `None` where no entry from `i` on is under `id`.
pub open spec fn first_bits(nodes: Seq<(ValueId, IR)>, id: ValueId, i: int) -> Option<Option<u32>>
    decreases nodes.len() - i,
{
    if i < 0 || i >= nodes.len() {
        None
    } else if nodes[i].0 == id {
        Some(access_constant_bits(nodes[i].1))
    } else {
        first_bits(nodes, id, i + 1)
    }
}

/// The bits of the access constant `id`, found among `nodes` or else among the recorded
/// instructions.
fn access_bits(instrs: &Vec<IR>, nodes: &Vec<(ValueId, IR)>, id: ValueId) -> (r: Option<u32>)
    ensures
        r == access_bits_spec(instrs@, nodes@, id),
{
    let mut i: usize = 0;
    while i < nodes.len()
        invariant
            i <= nodes@.len(),
            first_bits(nodes@, id, 0) == first_bits(nodes@, id, i as int),
        decreases nodes@.len() - i,
    {
        if nodes[i].0 == id {
            return match &nodes[i].1 {
                IR::Constant(Constant::Access(a)) => Some(a.0),
                _ => None,
            };
        }
        i = i + 1;
    }
    if (id.0 as usize) < instrs.len() {
        match &instrs[id.0 as usize] {
            IR::Constant(Constant::Access(a)) => Some(a.0),
            _ => None,
        }
    } else {
        None
    }
}

/// The usage a resource is created with; none for anything else.
pub open spec fn usage_field(ir: IR) -> u32 {
    match ir {
        IR::ConstructImage { usage, .. } => usage,
        IR::ConstructBuffer { usage, .. } => usage,
        _ => 0,
    }
}

/// `ir` created with `u` for its usage instead.
pub open spec fn with_usage(ir: IR, u: u32) -> IR {
    match ir {
        IR::ConstructImage {
            image,
            image_view,
            view_type,
            extent,
            format,
            samples,
            base_level,
            level_count,
            base_layer,
            layer_count,
            initial_layout,
            name,
            ..
        } => IR::ConstructImage {
            image,
            image_view,
            view_type,
            extent,
            format,
            samples,
            base_level,
            level_count,
            base_layer,
            layer_count,
            usage: u,
            initial_layout,
            name,
        },
        IR::ConstructBuffer { buffer, size, location, initial_access, name, .. } => IR::ConstructBuffer {
            buffer,
            size,
            usage: u,
            location,
            initial_access,
            name,
        },
        _ => ir,
    }
}

/// `after` is `before` with at most a resource's usage widened.
pub open spec fn usage_widened(before: IR, after: IR) -> bool {
    &&& after == with_usage(before, usage_field(after))
    &&& usage_field(after) & usage_field(before) == usage_field(before)
}

proof fn lemma_widened_refl(ir: IR)
    ensures
        usage_widened(ir, ir),
{
    let u = usage_field(ir);
    assert(u & u == u) by (bit_vector);
}

/// An image the program creates itself.
pub open spec fn transient_image(ir: IR) -> bool {
    ir matches IR::ConstructImage { image, .. } && image.handle == 0
}

/// No two entries of `list` are for one id.
pub open spec fn distinct_keys(list: Seq<(ValueId, u32)>) -> bool {
    forall|a: int, b: int| 0 <= a < b < list.len() ==> (#[trigger] list[a]).0 != (#[trigger] list[b]).0
}

/// What `list` holds for `id`, 0 where it holds nothing.
pub open spec fn lookup0(list: Seq<(ValueId, u32)>, id: ValueId) -> u32 {
    if exists|k: int| 0 <= k < list.len() && (#[trigger] list[k]).0 == id {
        list[choose|k: int| 0 <= k < list.len() && (#[trigger] list[k]).0 == id].1
    } else {
        0
    }
}

proof fn lemma_lookup0_at(list: Seq<(ValueId, u32)>, k: int)
    requires
        distinct_keys(list),
        0 <= k < list.len(),
    ensures
        lookup0(list, list[k].0) == list[k].1,
{
    let c = choose|c: int| 0 <= c < list.len() && (#[trigger] list[c]).0 == list[k].0;
    if c != k {
        if c < k {
            assert(list[c].0 != list[k].0);
        } else {
            assert(list[k].0 != list[c].0);
        }
    }
}

proof fn lemma_add_usage_lookup(old: Seq<(ValueId, u32)>, new: Seq<(ValueId, u32)>, id: ValueId, u: u32)
    requires
        distinct_keys(old),
        (exists|i: int|
            0 <= i < old.len() && (#[trigger] old[i]).0 == id && (forall|j: int| 0 <= j < i ==> (#[trigger] old[j]).0 != id)
                && new == old.update(i, (id, old[i].1 | u))) || ((forall|j: int| 0 <= j < old.len() ==> (#[trigger] old[j]).0
            != id) && new == old.push((id, u))),
    ensures
        distinct_keys(new),
        forall|r: ValueId| #[trigger] lookup0(new, r) == if r == id { lookup0(old, r) | u } else { lookup0(old, r) },
{
    if exists|i: int|
        0 <= i < old.len() && (#[trigger] old[i]).0 == id && (forall|j: int| 0 <= j < i ==> (#[trigger] old[j]).0 != id)
            && new == old.update(i, (id, old[i].1 | u)) {
        let i = choose|i: int|
            0 <= i < old.len() && (#[trigger] old[i]).0 == id && (forall|j: int| 0 <= j < i ==> (#[trigger] old[j]).0 != id)
                && new == old.update(i, (id, old[i].1 | u));
        assert forall|a: int, b: int| 0 <= a < b < new.len() implies (#[trigger] new[a]).0 != (#[trigger] new[b]).0 by {
            assert(new[a].0 == old[a].0 && new[b].0 == old[b].0);
        }
        assert forall|r: ValueId| #[trigger] lookup0(new, r) == if r == id { lookup0(old, r) | u } else { lookup0(old, r) } by {
            lemma_lookup0_at(old, i);
            lemma_lookup0_at(new, i);
            if r != id {
                if exists|k: int| 0 <= k < old.len() && (#[trigger] old[k]).0 == r {
                    let k = choose|k: int| 0 <= k < old.len() && (#[trigger] old[k]).0 == r;
                    lemma_lookup0_at(old, k);
                    assert(new[k] == old[k]);
                    lemma_lookup0_at(new, k);
                } else {
                    assert forall|k: int| 0 <= k < new.len() implies (#[trigger] new[k]).0 != r by {
                        assert(new[k].0 == old[k].0);
                    }
                }
            }
        }
    } else {
        assert forall|a: int, b: int| 0 <= a < b < new.len() implies (#[trigger] new[a]).0 != (#[trigger] new[b]).0 by {
            if b == old.len() {
                assert(new[a] == old[a]);
            } else {
                assert(new[a] == old[a] && new[b] == old[b]);
            }
        }
        assert forall|r: ValueId| #[trigger] lookup0(new, r) == if r == id { lookup0(old, r) | u } else { lookup0(old, r) } by {
            lemma_lookup0_at(new, old.len() as int);
            if r == id {
                assert(lookup0(old, r) == 0);
                assert(0u32 | u == u) by (bit_vector);
            } else if exists|k: int| 0 <= k < old.len() && (#[trigger] old[k]).0 == r {
                let k = choose|k: int| 0 <= k < old.len() && (#[trigger] old[k]).0 == r;
                lemma_lookup0_at(old, k);
                assert(new[k] == old[k]);
                lemma_lookup0_at(new, k);
            } else {
                assert forall|k: int| 0 <= k < new.len() implies (#[trigger] new[k]).0 != r by {
                    if k < old.len() {
                        assert(new[k] == old[k]);
                    }
                }
            }
        }
    }
}

/// The image usage the layouts the barriers of `s` move the image `r` to call for, with the
/// accesses looked up in `all`.
pub open spec fn barrier_usage(instrs: Seq<IR>, all: Seq<(ValueId, IR)>, s: Seq<(ValueId, IR)>, r: ValueId) -> u32
    decreases s.len(),
{
    if s.len() == 0 {
        0
    } else {
        barrier_usage(instrs, all, s.drop_last(), r) | match s.last().1 {
            IR::ImageBarrier { dst_access, value, .. } => if root_spec(instrs, value, MAX_RESOLVE_DEPTH as nat) == r {
                match access_bits_spec(instrs, all, dst_access) {
                    Some(bits) => image_usage_of(bits),
                    None => 0,
                }
            } else {
                0
            },
            _ => 0,
        }
    }
}

/// A buffer the program creates itself.
pub open spec fn transient_buffer(ir: IR) -> bool {
    ir matches IR::ConstructBuffer { buffer, .. } && buffer.handle == 0
}

/// The buffer `id` stands for, followed back to what created it.
pub open spec fn buffer_root(instrs: Seq<IR>, id: ValueId) -> ValueId {
    root_spec(instrs, id, MAX_RESOLVE_DEPTH as nat)
}

/// The usage the instruction `ir` needs of the buffer created by `r`: a copy out of it needs
/// it as a transfer source, a vertex or index bind as a vertex or index buffer, an indirect
/// dispatch as an indirect buffer, and pushing its address needs its device address.
pub open spec fn buffer_use(instrs: Seq<IR>, ir: IR, r: ValueId) -> u32 {
    match ir {
        IR::CopyBufferToImage { buffer, .. } => if buffer_root(instrs, buffer) == r {
            BUFFER_USAGE_TRANSFER_SRC
        } else {
            0
        },
        IR::BindVertexBuffers { buffers, .. } => if exists|k: int|
            0 <= k < buffers@.len() && buffer_root(instrs, #[trigger] buffers@[k]) == r {
            BUFFER_USAGE_VERTEX_BUFFER
        } else {
            0
        },
        IR::BindIndexBuffer { buffer, .. } => if buffer_root(instrs, buffer) == r {
            BUFFER_USAGE_INDEX_BUFFER
        } else {
            0
        },
        IR::Dispatch { size: DispatchSize::Indirect { buffer, .. }, .. } => if buffer_root(instrs, buffer) == r {
            BUFFER_USAGE_INDIRECT_BUFFER
        } else {
            0
        },
        IR::SetState { change: StateChange::PushConstantAddress { buffer, .. }, .. } => if buffer_root(instrs, buffer)
            == r {
            BUFFER_USAGE_SHADER_DEVICE_ADDRESS
        } else {
            0
        },
        _ => 0,
    }
}

/// Every buffer `after` creates itself is created with every usage an instruction of `before`
/// needs of it.
pub open spec fn buffer_uses_covered(instrs: Seq<IR>, before: Seq<(ValueId, IR)>, after: Seq<(ValueId, IR)>) -> bool {
    forall|k: int, j: int|
        0 <= k < before.len() && 0 <= j < before.len() && transient_buffer(before[k].1) ==> usage_field(after[k].1)
            & #[trigger] buffer_use(instrs, before[j].1, before[k].0) == buffer_use(instrs, before[j].1, before[k].0)
}

/// `list` holds, for each buffer, every usage an instruction of `s` needs of it.
pub open spec fn list_covers_uses(instrs: Seq<IR>, list: Seq<(ValueId, u32)>, s: Seq<(ValueId, IR)>) -> bool {
    forall|j: int, r: ValueId| 0 <= j < s.len() ==> lookup0(list, r) & #[trigger] buffer_use(instrs, s[j].1, r) == buffer_use(instrs, s[j].1, r)
}

proof fn lemma_or_keeps(x: u32, u: u32, b: u32)
    by (bit_vector)
    requires
        x & b == b,
    ensures
        (x | u) & b == b,
        (u | x) & b == b,
{
}

proof fn lemma_or_and()
    by (bit_vector)
    ensures
        forall|x: u32, u: u32| #[trigger] ((x | u) & u) == u,
        forall|x: u32| #[trigger] (x & 0) == 0,
{
}

/// Adding `u` for `id` keeps what `before` covered covered, and covers `u` for `id`.
proof fn lemma_covers_grow(
    instrs: Seq<IR>,
    before: Seq<(ValueId, u32)>,
    after: Seq<(ValueId, u32)>,
    id: ValueId,
    u: u32,
    s: Seq<(ValueId, IR)>,
)
    requires
        forall|r: ValueId| #[trigger] lookup0(after, r) == if r == id { lookup0(before, r) | u } else { lookup0(before, r) },
        list_covers_uses(instrs, before, s),
    ensures
        list_covers_uses(instrs, after, s),
        lookup0(after, id) & u == u,
{
    lemma_or_and();
    assert(lookup0(after, id) == lookup0(before, id) | u);
    assert forall|j: int, r: ValueId| 0 <= j < s.len() implies lookup0(after, r) & #[trigger] buffer_use(instrs, s[j].1, r)
        == buffer_use(instrs, s[j].1, r) by {
        assert(lookup0(before, r) & buffer_use(instrs, s[j].1, r) == buffer_use(instrs, s[j].1, r));
        lemma_or_keeps(lookup0(before, r), u, buffer_use(instrs, s[j].1, r));
    }
}

/// Where the program creates the buffer `nodes[k]` itself and the instruction `nodes[j]` binds
/// it, through any view of it, as an index buffer, inference creates it with the index-buffer
/// usage.
pub proof fn lemma_index_bind_gives_index_usage(
    instrs: Seq<IR>,
    before: Seq<(ValueId, IR)>,
    after: Seq<(ValueId, IR)>,
    k: int,
    j: int,
)
    requires
        buffer_uses_covered(instrs, before, after),
        0 <= k < before.len(),
        0 <= j < before.len(),
        transient_buffer(before[k].1),
        before[j].1 matches IR::BindIndexBuffer { buffer, .. } && buffer_root(instrs, buffer) == before[k].0,
    ensures
        usage_field(after[k].1) & BUFFER_USAGE_INDEX_BUFFER == BUFFER_USAGE_INDEX_BUFFER,
{
    assert(buffer_use(instrs, before[j].1, before[k].0) == BUFFER_USAGE_INDEX_BUFFER);
}

/// Where the program creates the buffer `nodes[k]` itself and the instruction `nodes[j]` binds
/// it among its vertex buffers, inference creates it with the vertex-buffer usage.
pub proof fn lemma_vertex_bind_gives_vertex_usage(
    instrs: Seq<IR>,
    before: Seq<(ValueId, IR)>,
    after: Seq<(ValueId, IR)>,
    k: int,
    j: int,
    b: int,
)
    requires
        buffer_uses_covered(instrs, before, after),
        0 <= k < before.len(),
        0 <= j < before.len(),
        transient_buffer(before[k].1),
        before[j].1 matches IR::BindVertexBuffers { buffers, .. } && 0 <= b < buffers@.len() && buffer_root(
            instrs,
            buffers@[b],
        ) == before[k].0,
    ensures
        usage_field(after[k].1) & BUFFER_USAGE_VERTEX_BUFFER == BUFFER_USAGE_VERTEX_BUFFER,
{
    if let IR::BindVertexBuffers { buffers, .. } = before[j].1 {
        assert(buffer_root(instrs, buffers@[b]) == before[k].0);
    }
    assert(buffer_use(instrs, before[j].1, before[k].0) == BUFFER_USAGE_VERTEX_BUFFER);
}

/// Records what each resource the program creates is used for: an image by the layouts its
/// barriers move it to, a buffer by the copies, binds, indirect dispatches, declared accesses
/// and pushed addresses that reach it. A resource bound to a variable is not created here, so
/// what is found of it is what the caller has to have allocated it for.
pub fn infer_usage(instrs: &Vec<IR>, nodes: &mut Vec<(ValueId, IR)>)
    ensures
        final(nodes)@.len() == old(nodes)@.len(),
        forall|k: int| 0 <= k < old(nodes)@.len() ==> (#[trigger] final(nodes)@[k]).0 == old(nodes)@[k].0
            && usage_widened(old(nodes)@[k].1, final(nodes)@[k].1),
        forall|k: int|
            0 <= k < old(nodes)@.len() && transient_image((#[trigger] old(nodes)@[k]).1) ==> usage_field(final(nodes)@[k].1) == usage_field(old(nodes)@[k].1) | barrier_usage(
                instrs@,
                old(nodes)@,
                old(nodes)@,
                old(nodes)@[k].0,
            ),
        buffer_uses_covered(instrs@, old(nodes)@, final(nodes)@),
{
    let mut usages: Vec<(ValueId, u32)> = Vec::new();
    let mut i: usize = 0;
    while i < nodes.len()
        invariant
            i <= nodes@.len(),
            nodes@ == old(nodes)@,
            distinct_keys(usages@),
            forall|r: ValueId| #[trigger] lookup0(usages@, r) == barrier_usage(instrs@, nodes@, nodes@.take(i as int), r),
        decreases nodes@.len() - i,
    {
        proof {
            assert(nodes@.take(i + 1).drop_last() =~= nodes@.take(i as int));
            assert(nodes@.take(i + 1).last() == nodes@[i as int]);
        }
        let ghost before = usages@;
        if let IR::ImageBarrier { dst_access, value, .. } = &nodes[i].1 {
            if let Some(bits) = access_bits(instrs, nodes, *dst_access) {
                let root = resource_root(instrs, *value);
                let u = Access(bits).image_usage();
                add_usage(&mut usages, root, u);
                proof {
                    lemma_add_usage_lookup(before, usages@, root, u);
                    assert forall|r: ValueId| #[trigger] lookup0(usages@, r) == barrier_usage(
                        instrs@,
                        nodes@,
                        nodes@.take(i + 1),
                        r,
                    ) by {
                        assert(lookup0(before, r) == barrier_usage(instrs@, nodes@, nodes@.take(i as int), r));
                        let x = barrier_usage(instrs@, nodes@, nodes@.take(i as int), r);
                        assert(x | 0 == x) by (bit_vector);
                    }
                }
            } else {
                proof {
                    assert forall|r: ValueId| #[trigger] lookup0(usages@, r) == barrier_usage(
                        instrs@,
                        nodes@,
                        nodes@.take(i + 1),
                        r,
                    ) by {
                        assert(lookup0(before, r) == barrier_usage(instrs@, nodes@, nodes@.take(i as int), r));
                        let x = barrier_usage(instrs@, nodes@, nodes@.take(i as int), r);
                        assert(x | 0 == x) by (bit_vector);
                    }
                }
            }
        } else {
            proof {
                assert forall|r: ValueId| #[trigger] lookup0(usages@, r) == barrier_usage(
                    instrs@,
                    nodes@,
                    nodes@.take(i + 1),
                    r,
                ) by {
                    assert(lookup0(before, r) == barrier_usage(instrs@, nodes@, nodes@.take(i as int), r));
                    let x = barrier_usage(instrs@, nodes@, nodes@.take(i as int), r);
                    assert(x | 0 == x) by (bit_vector);
                }
            }
        }
        i = i + 1;
    }
    proof {
        assert(nodes@.take(i as int) =~= nodes@);
    }
    let mut buffer_usages: Vec<(ValueId, u32)> = Vec::new();
    let mut i: usize = 0;
    while i < nodes.len()
        invariant
            i <= nodes@.len(),
            nodes@ == old(nodes)@,
            distinct_keys(usages@),
            forall|r: ValueId| #[trigger] lookup0(usages@, r) == barrier_usage(instrs@, old(nodes)@, old(nodes)@, r),
            distinct_keys(buffer_usages@),
            list_covers_uses(instrs@, buffer_usages@, nodes@.take(i as int)),
        decreases nodes@.len() - i,
    {
        let ghost start = buffer_usages@;
        let ghost prefix = nodes@.take(i as int);
        let ghost next = nodes@.take(i + 1);
        proof {
            lemma_or_and();
            assert forall|j: int| 0 <= j < prefix.len() implies #[trigger] next[j] == prefix[j] by {}
            assert(next[i as int] == nodes@[i as int]);
        }
        match &nodes[i].1 {
            IR::CopyBufferToImage { buffer, .. } => {
                let ghost root = buffer_root(instrs@, *buffer);
                add_usage(&mut buffer_usages, resource_root(instrs, *buffer), BUFFER_USAGE_TRANSFER_SRC);
                proof {
                    lemma_add_usage_lookup(start, buffer_usages@, root, BUFFER_USAGE_TRANSFER_SRC);
                    lemma_covers_grow(instrs@, start, buffer_usages@, root, BUFFER_USAGE_TRANSFER_SRC, prefix);
                }
            },
            IR::BindVertexBuffers { buffers, .. } => {
                let mut k: usize = 0;
                while k < buffers.len()
                    invariant
                        k <= buffers@.len(),
                        distinct_keys(buffer_usages@),
                        list_covers_uses(instrs@, buffer_usages@, prefix),
                        forall|q: int| 0 <= q < k ==> lookup0(buffer_usages@, buffer_root(instrs@, #[trigger] buffers@[q]))
                            & BUFFER_USAGE_VERTEX_BUFFER == BUFFER_USAGE_VERTEX_BUFFER,
                    decreases buffers@.len() - k,
                {
                    let ghost inner = buffer_usages@;
                    let ghost root = buffer_root(instrs@, buffers@[k as int]);
                    add_usage(&mut buffer_usages, resource_root(instrs, buffers[k]), BUFFER_USAGE_VERTEX_BUFFER);
                    proof {
                        lemma_add_usage_lookup(inner, buffer_usages@, root, BUFFER_USAGE_VERTEX_BUFFER);
                        lemma_covers_grow(instrs@, inner, buffer_usages@, root, BUFFER_USAGE_VERTEX_BUFFER, prefix);
                        assert forall|q: int| 0 <= q < k + 1 implies lookup0(buffer_usages@, buffer_root(instrs@, #[trigger] buffers@[q]))
                            & BUFFER_USAGE_VERTEX_BUFFER == BUFFER_USAGE_VERTEX_BUFFER by {
                            if q < k {
                                let r = buffer_root(instrs@, buffers@[q]);
                                lemma_or_keeps(lookup0(inner, r), BUFFER_USAGE_VERTEX_BUFFER, BUFFER_USAGE_VERTEX_BUFFER);
                            }
                        }
                    }
                    k = k + 1;
                }
            },
            IR::BindIndexBuffer { buffer, .. } => {
                let ghost root = buffer_root(instrs@, *buffer);
                add_usage(&mut buffer_usages, resource_root(instrs, *buffer), BUFFER_USAGE_INDEX_BUFFER);
                proof {
                    lemma_add_usage_lookup(start, buffer_usages@, root, BUFFER_USAGE_INDEX_BUFFER);
                    lemma_covers_grow(instrs@, start, buffer_usages@, root, BUFFER_USAGE_INDEX_BUFFER, prefix);
                }
            },
            IR::BeginRendering { attachments, .. } | IR::BeginCompute { attachments, .. } => {
                let mut k: usize = 0;
                while k < attachments.len()
                    invariant
                        k <= attachments@.len(),
                        distinct_keys(buffer_usages@),
                        list_covers_uses(instrs@, buffer_usages@, prefix),
                    decreases attachments@.len() - k,
                {
                    let (resource, access) = attachments[k];
                    if is_buffer(instrs, resource) {
                        if let Some(bits) = access_bits(instrs, nodes, access) {
                            let ghost inner = buffer_usages@;
                            let ghost root = buffer_root(instrs@, resource);
                            let ghost u = buffer_usage_of(bits);
                            add_usage(&mut buffer_usages, resource_root(instrs, resource), Access(bits).buffer_usage());
                            proof {
                                lemma_add_usage_lookup(inner, buffer_usages@, root, u);
                                lemma_covers_grow(instrs@, inner, buffer_usages@, root, u, prefix);
                            }
                        }
                    }
                    k = k + 1;
                }
            },
            IR::Dispatch { size: DispatchSize::Indirect { buffer, .. }, .. } => {
                let ghost root = buffer_root(instrs@, *buffer);
                add_usage(&mut buffer_usages, resource_root(instrs, *buffer), BUFFER_USAGE_INDIRECT_BUFFER);
                proof {
                    lemma_add_usage_lookup(start, buffer_usages@, root, BUFFER_USAGE_INDIRECT_BUFFER);
                    lemma_covers_grow(instrs@, start, buffer_usages@, root, BUFFER_USAGE_INDIRECT_BUFFER, prefix);
                }
            },
            IR::SetState { change: StateChange::PushConstantAddress { buffer, .. }, .. } => {
                let ghost root = buffer_root(instrs@, *buffer);
                add_usage(&mut buffer_usages, resource_root(instrs, *buffer), BUFFER_USAGE_SHADER_DEVICE_ADDRESS);
                proof {
                    lemma_add_usage_lookup(start, buffer_usages@, root, BUFFER_USAGE_SHADER_DEVICE_ADDRESS);
                    lemma_covers_grow(instrs@, start, buffer_usages@, root, BUFFER_USAGE_SHADER_DEVICE_ADDRESS, prefix);
                }
            },
            _ => {},
        }
        proof {
            lemma_or_and();
            assert forall|j: int, r: ValueId| 0 <= j < next.len() implies lookup0(buffer_usages@, r) & #[trigger] buffer_use(
                instrs@,
                next[j].1,
                r,
            ) == buffer_use(instrs@, next[j].1, r) by {
                if j < prefix.len() {
                    assert(next[j] == prefix[j]);
                    assert(lookup0(buffer_usages@, r) & buffer_use(instrs@, prefix[j].1, r) == buffer_use(instrs@, prefix[j].1, r));
                } else {
                    assert(next[j] == nodes@[i as int]);
                }
            }
        }
        i = i + 1;
    }
    proof {
        assert(nodes@.take(nodes@.len() as int) =~= nodes@);
    }
    proof {
        assert forall|k: int| 0 <= k < nodes@.len() implies (#[trigger] nodes@[k]).0 == old(nodes)@[k].0
            && usage_widened(old(nodes)@[k].1, nodes@[k].1) by {
            lemma_widened_refl(nodes@[k].1);
        }
    }
    let mut i: usize = 0;
    while i < nodes.len()
        invariant
            i <= nodes@.len(),
            nodes@.len() == old(nodes)@.len(),
            forall|k: int| 0 <= k < nodes@.len() ==> (#[trigger] nodes@[k]).0 == old(nodes)@[k].0
                && usage_widened(old(nodes)@[k].1, nodes@[k].1),
            forall|k: int| i <= k < nodes@.len() ==> #[trigger] nodes@[k] == old(nodes)@[k],
            distinct_keys(usages@),
            forall|r: ValueId| #[trigger] lookup0(usages@, r) == barrier_usage(instrs@, old(nodes)@, old(nodes)@, r),
            forall|k: int|
                0 <= k < i && transient_image((#[trigger] old(nodes)@[k]).1) ==> usage_field(nodes@[k].1) == usage_field(old(nodes)@[k].1) | barrier_usage(
                    instrs@,
                    old(nodes)@,
                    old(nodes)@,
                    old(nodes)@[k].0,
                ),
            distinct_keys(buffer_usages@),
            list_covers_uses(instrs@, buffer_usages@, old(nodes)@),
            forall|k: int, j: int|
                0 <= k < i && 0 <= j < old(nodes)@.len() && transient_buffer(old(nodes)@[k].1) ==> usage_field(nodes@[k].1)
                    & #[trigger] buffer_use(instrs@, old(nodes)@[j].1, old(nodes)@[k].0) == buffer_use(
                    instrs@,
                    old(nodes)@[j].1,
                    old(nodes)@[k].0,
                ),
        decreases nodes@.len() - i,
    {
        let id = nodes[i].0;
        let updated = match &nodes[i].1 {
            IR::ConstructImage {
                image,
                image_view,
                view_type,
                extent,
                format,
                samples,
                base_level,
                level_count,
                base_layer,
                layer_count,
                usage,
                initial_layout,
                name,
            } => if image.handle == 0 {
                let found = usage_of(&usages, id);
                proof {
                    if exists|k: int| 0 <= k < usages@.len() && (#[trigger] usages@[k]).0 == id {
                        let k = choose|k: int| 0 <= k < usages@.len() && (#[trigger] usages@[k]) == (id, found) && (forall|j: int|
                            0 <= j < k ==> (#[trigger] usages@[j]).0 != id);
                        lemma_lookup0_at(usages@, k);
                    }
                    assert(found == lookup0(usages@, id));
                }
                let u = *usage | found;
                assert(u & *usage == *usage) by (bit_vector)
                    requires
                        u == *usage | found,
                ;
                Some(
                    IR::ConstructImage {
                        image: *image,
                        image_view: *image_view,
                        view_type: *view_type,
                        extent: *extent,
                        format: *format,
                        samples: *samples,
                        base_level: *base_level,
                        level_count: *level_count,
                        base_layer: *base_layer,
                        layer_count: *layer_count,
                        usage: u,
                        initial_layout: *initial_layout,
                        name: *name,
                    },
                )
            } else {
                None
            },
            IR::ConstructBuffer { buffer, size, usage, location, initial_access, name } => if buffer.handle == 0 {
                let found = usage_of(&buffer_usages, id);
                proof {
                    if exists|k: int| 0 <= k < buffer_usages@.len() && (#[trigger] buffer_usages@[k]).0 == id {
                        let k = choose|k: int|
                            0 <= k < buffer_usages@.len() && (#[trigger] buffer_usages@[k]) == (id, found) && (forall|j: int|
                                0 <= j < k ==> (#[trigger] buffer_usages@[j]).0 != id);
                        lemma_lookup0_at(buffer_usages@, k);
                    }
                    assert(found == lookup0(buffer_usages@, id));
                    assert forall|j: int| 0 <= j < old(nodes)@.len() implies (*usage | found) & #[trigger] buffer_use(
                        instrs@,
                        old(nodes)@[j].1,
                        id,
                    ) == buffer_use(instrs@, old(nodes)@[j].1, id) by {
                        lemma_or_keeps(found, *usage, buffer_use(instrs@, old(nodes)@[j].1, id));
                    }
                }
                let u = *usage | found;
                assert(u & *usage == *usage) by (bit_vector)
                    requires
                        u == *usage | found,
                ;
                Some(
                    IR::ConstructBuffer {
                        buffer: *buffer,
                        size: *size,
                        usage: u,
                        location: *location,
                        initial_access: *initial_access,
                        name: *name,
                    },
                )
            } else {
                None
            },
            _ => None,
        };
        let ghost prior = nodes@;
        if let Some(ir) = updated {
            nodes.set(i, (id, ir));
        }
        proof {
            assert forall|k: int, j: int|
                0 <= k < i + 1 && 0 <= j < old(nodes)@.len() && transient_buffer(old(nodes)@[k].1) implies usage_field(nodes@[k].1)
                    & #[trigger] buffer_use(instrs@, old(nodes)@[j].1, old(nodes)@[k].0) == buffer_use(
                    instrs@,
                    old(nodes)@[j].1,
                    old(nodes)@[k].0,
                ) by {
                if k < i {
                    assert(nodes@[k] == prior[k]);
                } else {
                    assert(old(nodes)@[k] == prior[k]);
                }
            }
            assert forall|k: int|
                0 <= k < i + 1 && transient_image((#[trigger] old(nodes)@[k]).1) implies usage_field(nodes@[k].1) == usage_field(old(nodes)@[k].1) | barrier_usage(instrs@, old(nodes)@, old(nodes)@, old(nodes)@[k].0) by {
                if k < i {
                    assert(nodes@[k] == prior[k]);
                }
            }
        }
        i = i + 1;
    }
}

/// What is in force at an instruction of a pass: the state, the area framebuffer-relative
/// state resolves against, the pipeline bound, and whether the area is known only when the
/// program runs.
pub struct InForce {
    pub state: PassState,
    pub area: Rect,
    pub pipeline: Option<PipelineId>,
    pub late_area: bool,
}

/// `a` holds what `b` holds, field for field.
pub open spec fn same_in_force(a: InForce, b: InForce) -> bool {
    &&& a.state.rendering.color_formats@ == b.state.rendering.color_formats@
    &&& a.state.rendering.depth_format == b.state.rendering.depth_format
    &&& a.state.rendering.samples == b.state.rendering.samples
    &&& a.state.topology == b.state.topology
    &&& a.state.rasterization == b.state.rasterization
    &&& a.state.depth == b.state.depth
    &&& a.state.blend@ == b.state.blend@
    &&& a.state.viewports@ == b.state.viewports@
    &&& a.state.scissors@ == b.state.scissors@
    &&& a.state.dynamic == b.state.dynamic
    &&& a.state.push_constants.offset == b.state.push_constants.offset
    &&& a.state.push_constants.data@ == b.state.push_constants.data@
    &&& a.state.push_sources@ == b.state.push_sources@
    &&& a.area == b.area
    &&& a.pipeline == b.pipeline
    &&& a.late_area == b.late_area
}

impl InForce {
    pub open spec fn wf(&self) -> bool {
        self.state.push_constants.wf()
    }

    fn copy(&self) -> (r: InForce)
        requires
            self.wf(),
        ensures
            r.wf(),
            same_in_force(r, *self),
    {
        InForce { state: self.state.copy(), area: self.area, pipeline: self.pipeline, late_area: self.late_area }
    }
}

fn in_force_at(regions: &Vec<(ValueId, InForce)>, pass: ValueId) -> (r: Option<InForce>)
    requires
        forall|k: int| 0 <= k < regions@.len() ==> (#[trigger] regions@[k]).1.wf(),
    ensures
        r matches Some(f) ==> f.wf(),
        r matches Some(f) ==> exists|i: int|
            0 <= i < regions@.len() && (#[trigger] regions@[i]).0 == pass && same_in_force(f, regions@[i].1) && forall|j: int|
                0 <= j < i ==> (#[trigger] regions@[j]).0 != pass,
        r is None ==> forall|j: int| 0 <= j < regions@.len() ==> (#[trigger] regions@[j]).0 != pass,
{
    let mut i: usize = 0;
    while i < regions.len()
        invariant
            i <= regions@.len(),
            forall|j: int| 0 <= j < i ==> (#[trigger] regions@[j]).0 != pass,
            forall|k: int| 0 <= k < regions@.len() ==> (#[trigger] regions@[k]).1.wf(),
        decreases regions@.len() - i,
    {
        if regions[i].0 == pass {
            return Some(regions[i].1.copy());
        }
        i = i + 1;
    }
    None
}

/// The extent the render area constant `id` holds, if it is one.
pub open spec fn extent_2d_spec(instrs: Seq<IR>, id: ValueId) -> Option<(u32, u32)> {
    if id.0 < instrs.len() {
        match instrs[id.0 as int] {
            IR::Constant(Constant::Extent2D(e)) => Some((e.width, e.height)),
            _ => None,
        }
    } else {
        None
    }
}

/// The extent a render area constant holds.
fn extent_2d_at(instrs: &Vec<IR>, id: ValueId) -> (r: Option<(u32, u32)>)
    ensures
        r == extent_2d_spec(instrs@, id),
{
    if (id.0 as usize) < instrs.len() {
        match &instrs[id.0 as usize] {
            IR::Constant(Constant::Extent2D(e)) => Some((e.width, e.height)),
            _ => None,
        }
    } else {
        None
    }
}

/// What reading attachments has found so far: the color formats, the depth format, the sample
/// count and the extent, whether those came from a color attachment, how many color
/// attachments were met, and whether a depth attachment was.
pub struct Found {
    pub formats: Seq<i32>,
    pub depth: Option<i32>,
    pub samples: u32,
    pub extent: Option<(u32, u32)>,
    pub from_color: bool,
    pub colors: nat,
    pub depth_seen: bool,
}

/// The extent an image has, as a width and a height.
pub open spec fn extent_2d_of(image: ImageType) -> Option<(u32, u32)> {
    match image.extent {
        Some(e) => Some((e.width, e.height)),
        None => None,
    }
}

/// What reading the attachment `attachment`, reached at `access`, adds to `found`.
pub open spec fn found_step(
    instrs: Seq<IR>,
    nodes: Seq<(ValueId, IR)>,
    found: Found,
    attachment: ValueId,
    access: ValueId,
) -> Found {
    let bits = match access_bits_spec(instrs, nodes, access) {
        Some(bits) => bits,
        None => 0,
    };
    let image = image_type_spec(instrs, attachment);
    if bits & COLOR_BITS != 0 {
        let counted = Found { colors: found.colors + 1, ..found };
        match image {
            Some(img) => if found.colors == 0 {
                Found {
                    samples: img.samples,
                    from_color: true,
                    extent: extent_2d_of(img),
                    formats: found.formats.push(img.format),
                    ..counted
                }
            } else {
                Found { formats: found.formats.push(img.format), ..counted }
            },
            None => counted,
        }
    } else if bits & DEPTH_STENCIL_BITS != 0 && !found.depth_seen {
        let seen = Found { depth_seen: true, ..found };
        match image {
            Some(img) => if !found.from_color {
                Found { depth: Some(img.format), samples: img.samples, extent: extent_2d_of(img), ..seen }
            } else {
                Found { depth: Some(img.format), ..seen }
            },
            None => seen,
        }
    } else {
        found
    }
}

/// What reading `attachments` in order finds.
pub open spec fn found_over(instrs: Seq<IR>, nodes: Seq<(ValueId, IR)>, attachments: Seq<(ValueId, ValueId)>) -> Found
    decreases attachments.len(),
{
    if attachments.len() == 0 {
        Found {
            formats: Seq::empty(),
            depth: None,
            samples: SAMPLE_COUNT_1,
            extent: None,
            from_color: false,
            colors: 0,
            depth_seen: false,
        }
    } else {
        found_step(
            instrs,
            nodes,
            found_over(instrs, nodes, attachments.drop_last()),
            attachments.last().0,
            attachments.last().1,
        )
    }
}

/// `b` holds the same ids as `a`, and the same access constants.
pub open spec fn same_access_constants(a: Seq<(ValueId, IR)>, b: Seq<(ValueId, IR)>) -> bool {
    &&& a.len() == b.len()
    &&& forall|k: int|
        0 <= k < a.len() ==> (#[trigger] b[k]).0 == a[k].0 && access_constant_bits(a[k].1) == access_constant_bits(b[k].1)
}

/// Inference leaves every access constant where it was.
proof fn lemma_inference_keeps_constants(a: Seq<(ValueId, IR)>, b: Seq<(ValueId, IR)>)
    requires
        a.len() == b.len(),
        forall|k: int| 0 <= k < a.len() ==> (#[trigger] b[k]).0 == a[k].0 && inferred_from(a[k].1, b[k].1),
    ensures
        same_access_constants(a, b),
{
    assert forall|k: int| 0 <= k < a.len() implies (#[trigger] b[k]).0 == a[k].0 && access_constant_bits(a[k].1)
        == access_constant_bits(b[k].1) by {
        assert(inferred_from(a[k].1, b[k].1));
    }
}

proof fn lemma_first_bits_same(a: Seq<(ValueId, IR)>, b: Seq<(ValueId, IR)>, id: ValueId, i: int)
    requires
        same_access_constants(a, b),
    ensures
        first_bits(a, id, i) == first_bits(b, id, i),
    decreases a.len() - i,
{
    if 0 <= i < a.len() {
        assert(b[i].0 == a[i].0);
        lemma_first_bits_same(a, b, id, i + 1);
    }
}

/// What a region's attachments are found to be depends on the access constants alone.
proof fn lemma_found_over_same(
    instrs: Seq<IR>,
    a: Seq<(ValueId, IR)>,
    b: Seq<(ValueId, IR)>,
    attachments: Seq<(ValueId, ValueId)>,
)
    requires
        same_access_constants(a, b),
    ensures
        found_over(instrs, a, attachments) == found_over(instrs, b, attachments),
    decreases attachments.len(),
{
    if attachments.len() > 0 {
        lemma_found_over_same(instrs, a, b, attachments.drop_last());
        lemma_first_bits_same(a, b, attachments.last().1, 0);
    }
}

/// What a rendering region opened over `attachments` draws into: the formats of its color
/// attachments in order, the format of its depth attachment, the sample count of its first
/// color attachment (or of the depth one where it has none), and the extent those give it.
fn rendering_of(
    instrs: &Vec<IR>,
    nodes: &Vec<(ValueId, IR)>,
    attachments: &Vec<(ValueId, ValueId)>,
) -> (r: (RenderingState, Option<(u32, u32)>))
    ensures
        r.0.color_formats@ == found_over(instrs@, nodes@, attachments@).formats,
        r.0.depth_format == found_over(instrs@, nodes@, attachments@).depth,
        r.0.samples == found_over(instrs@, nodes@, attachments@).samples,
        r.1 == found_over(instrs@, nodes@, attachments@).extent,
{
    let mut rendering = RenderingState::empty();
    let mut extent: Option<(u32, u32)> = None;
    let mut samples_from_color = false;
    let mut color_index: usize = 0;
    let mut depth_seen = false;
    let mut i: usize = 0;
    while i < attachments.len()
        invariant
            i <= attachments@.len(),
            color_index <= i,
            ({
                let f = found_over(instrs@, nodes@, attachments@.take(i as int));
                &&& f.formats == rendering.color_formats@
                &&& f.depth == rendering.depth_format
                &&& f.samples == rendering.samples
                &&& f.extent == extent
                &&& f.from_color == samples_from_color
                &&& f.colors == color_index
                &&& f.depth_seen == depth_seen
            }),
        decreases attachments@.len() - i,
    {
        proof {
            assert(attachments@.take(i + 1).drop_last() =~= attachments@.take(i as int));
            assert(attachments@.take(i + 1).last() == attachments@[i as int]);
        }
        let (attachment, access) = attachments[i];
        let bits = match access_bits(instrs, nodes, access) {
            Some(bits) => bits,
            None => 0,
        };
        if bits & COLOR_BITS != 0 {
            let index = color_index;
            color_index = color_index + 1;
            if let Some(image) = resolve_image(instrs, attachment) {
                if index == 0 {
                    rendering.samples = image.samples;
                    samples_from_color = true;
                    extent = match image.extent {
                        Some(e) => Some((e.width, e.height)),
                        None => None,
                    };
                }
                rendering.color_formats.push(image.format);
            }
        } else if bits & DEPTH_STENCIL_BITS != 0 && !depth_seen {
            depth_seen = true;
            if let Some(image) = resolve_image(instrs, attachment) {
                rendering.depth_format = Some(image.format);
                if !samples_from_color {
                    rendering.samples = image.samples;
                    extent = match image.extent {
                        Some(e) => Some((e.width, e.height)),
                        None => None,
                    };
                }
            }
        }
        i = i + 1;
    }
    proof {
        assert(attachments@.take(i as int) =~= attachments@);
    }
    (rendering, extent)
}

/// `after` is `before` with at most what inference fills in of a draw or dispatch: the
/// pipeline, state and dynamic values of a draw, the pipeline and push constants of a
/// dispatch. Everything else stays as it was.
pub open spec fn inferred_from(before: IR, after: IR) -> bool {
    match before {
        IR::Draw { pass, vertex_count, instance_count, first_vertex, first_instance, .. } => after matches IR::Draw {
            pass: p,
            vertex_count: v,
            instance_count: n,
            first_vertex: f,
            first_instance: i,
            ..
        } && p == pass && v == vertex_count && n == instance_count && f == first_vertex && i == first_instance,
        IR::DrawIndexed { pass, index_count, instance_count, first_index, vertex_offset, first_instance, .. } => after matches IR::DrawIndexed {
            pass: p,
            index_count: c,
            instance_count: n,
            first_index: f,
            vertex_offset: o,
            first_instance: i,
            ..
        } && p == pass && c == index_count && n == instance_count && f == first_index && o == vertex_offset && i
            == first_instance,
        IR::CallOpaque { pass, body, .. } => after matches IR::CallOpaque { pass: p, body: b, .. } && p == pass && b
            == body,
        IR::Dispatch { pass, size, .. } => after matches IR::Dispatch { pass: p, size: z, .. } && p == pass && z == size,
        _ => after == before,
    }
}

/// The pipeline recorded first for `pass` among `regions`, if `pass` is there.
pub open spec fn first_pipe(regions: Seq<(ValueId, Option<PipelineId>)>, pass: ValueId) -> Option<Option<PipelineId>> {
    if exists|i: int| 0 <= i < regions.len() && (#[trigger] regions[i]).0 == pass {
        let i = choose|i: int|
            0 <= i < regions.len() && (#[trigger] regions[i]).0 == pass && forall|l: int| 0 <= l < i ==> (#[trigger] regions[l]).0 != pass;
        Some(regions[i].1)
    } else {
        None
    }
}

/// The instruction a command of a pass follows, where `ir` is one.
pub open spec fn pass_of(ir: IR) -> Option<ValueId> {
    match ir {
        IR::BindPipeline { pass, .. } | IR::SetState { pass, .. } | IR::Draw { pass, .. } | IR::DrawIndexed { pass, .. }
        | IR::CallOpaque { pass, .. } | IR::Dispatch { pass, .. } | IR::BindVertexBuffers { pass, .. }
        | IR::BindIndexBuffer { pass, .. } | IR::WriteDescriptor { pass, .. } | IR::EndRendering { pass }
        | IR::EndCompute { pass } => Some(pass),
        _ => None,
    }
}

/// The pipeline bound in the pass after each command of `s` that stands in one, by the
/// command's id: none when a region opens, the one bound by a pipeline bind, and otherwise the
/// one in force at the command it follows.
#[verifier::opaque]
pub open spec fn pipes(s: Seq<(ValueId, IR)>) -> Seq<(ValueId, Option<PipelineId>)>
    decreases s.len(),
{
    if s.len() == 0 {
        Seq::empty()
    } else {
        let prev = pipes(s.drop_last());
        let id = s.last().0;
        let ir = s.last().1;
        if ir is BeginRendering || ir is BeginCompute {
            prev.push((id, None))
        } else {
            match pass_of(ir) {
                Some(pass) => match first_pipe(prev, pass) {
                    Some(p) => prev.push(
                        (
                            id,
                            match ir {
                                IR::BindPipeline { pipeline, .. } => Some(pipeline),
                                _ => p,
                            },
                        ),
                    ),
                    None => prev,
                },
                None => prev,
            }
        }
    }
}

/// The pipeline a draw, an opaque call or a dispatch names.
pub open spec fn drawn_pipeline(ir: IR) -> PipelineId {
    match ir {
        IR::Draw { pipeline, .. } | IR::DrawIndexed { pipeline, .. } | IR::CallOpaque { pipeline, .. }
        | IR::Dispatch { pipeline, .. } => pipeline,
        _ => PipelineId(INVALID_ID),
    }
}

/// A draw, an opaque call or a dispatch.
pub open spec fn is_drawing(ir: IR) -> bool {
    ir is Draw || ir is DrawIndexed || ir is CallOpaque || ir is Dispatch
}

/// `regions` records, entry for entry, the ids and pipelines `ps` lists.
pub open spec fn tracks_pipes(regions: Seq<(ValueId, InForce)>, ps: Seq<(ValueId, Option<PipelineId>)>) -> bool {
    &&& regions.len() == ps.len()
    &&& forall|k: int| 0 <= k < regions.len() ==> (#[trigger] regions[k]).0 == ps[k].0 && regions[k].1.pipeline == ps[k].1
}

proof fn lemma_first_pipe(regions: Seq<(ValueId, InForce)>, ps: Seq<(ValueId, Option<PipelineId>)>, pass: ValueId, i: int)
    requires
        tracks_pipes(regions, ps),
        0 <= i < regions.len(),
        regions[i].0 == pass,
        forall|l: int| 0 <= l < i ==> (#[trigger] regions[l]).0 != pass,
    ensures
        first_pipe(ps, pass) == Some(regions[i].1.pipeline),
{
    assert(ps[i].0 == pass);
    assert forall|l: int| 0 <= l < i implies (#[trigger] ps[l]).0 != pass by {
        assert(regions[l].0 == ps[l].0);
    }
    let c = choose|c: int| 0 <= c < ps.len() && (#[trigger] ps[c]).0 == pass && forall|l: int| 0 <= l < c ==> (#[trigger] ps[l]).0 != pass;
    assert(c == i) by {
        if c < i {
            assert(ps[c].0 != pass);
        }
        if i < c {
            assert(ps[i].0 != pass);
        }
    }
}

proof fn lemma_no_pipe(regions: Seq<(ValueId, InForce)>, ps: Seq<(ValueId, Option<PipelineId>)>, pass: ValueId)
    requires
        tracks_pipes(regions, ps),
        forall|l: int| 0 <= l < regions.len() ==> (#[trigger] regions[l]).0 != pass,
    ensures
        first_pipe(ps, pass) is None,
{
    assert forall|l: int| 0 <= l < ps.len() implies (#[trigger] ps[l]).0 != pass by {
        assert(regions[l].0 == ps[l].0);
    }
}

/// What looking a pass up among the regions found, in terms of the pipelines tracked.
proof fn lemma_pipe_found(regions: Seq<(ValueId, InForce)>, ps: Seq<(ValueId, Option<PipelineId>)>, pass: ValueId, found: Option<InForce>)
    requires
        tracks_pipes(regions, ps),
        found matches Some(f) ==> exists|i: int|
            0 <= i < regions.len() && (#[trigger] regions[i]).0 == pass && same_in_force(f, regions[i].1) && forall|j: int|
                0 <= j < i ==> (#[trigger] regions[j]).0 != pass,
        found is None ==> forall|j: int| 0 <= j < regions.len() ==> (#[trigger] regions[j]).0 != pass,
    ensures
        found matches Some(f) ==> first_pipe(ps, pass) == Some(f.pipeline),
        found is None ==> first_pipe(ps, pass) is None,
{
    match found {
        Some(f) => {
            let i = choose|i: int|
                0 <= i < regions.len() && (#[trigger] regions[i]).0 == pass && same_in_force(f, regions[i].1) && forall|j: int|
                    0 <= j < i ==> (#[trigger] regions[j]).0 != pass;
            lemma_first_pipe(regions, ps, pass, i);
        },
        None => {
            lemma_no_pipe(regions, ps, pass);
        },
    }
}

/// What a draw runs with that its pass decides: the primitive topology and rasterization, the
/// color formats, depth format and sample count of what the region draws into, the dynamic
/// states in force, whether the region's area is only known when the program runs, that area,
/// and the depth test, blends, viewports and scissors set.
pub struct Shape {
    pub topology: i32,
    pub rasterization: RasterizationState,
    pub formats: Seq<i32>,
    pub depth: Option<i32>,
    pub samples: u32,
    pub dynamic: u32,
    pub late: bool,
    pub area: Rect,
    pub depth_state: DepthState,
    pub blend: Seq<ColorBlendAttachmentState>,
    pub viewports: Seq<Viewport>,
    pub scissors: Seq<Rect2D>,
}

/// The area a rendering region is opened over: its render area where it names one, else what
/// its attachments are found to span.
pub open spec fn region_extent(instrs: Seq<IR>, all: Seq<(ValueId, IR)>, ir: IR) -> Option<(u32, u32)> {
    match ir {
        IR::BeginRendering { attachments, render_area, .. } => if render_area.0 != INVALID_ID {
            extent_2d_spec(instrs, render_area)
        } else {
            found_over(instrs, all, attachments@).extent
        },
        _ => None,
    }
}

/// What a region opens with: a triangle list rasterized by default with viewports and
/// scissors dynamic, one viewport and one scissor over the whole area, no depth test, and
/// blending off for each color attachment; drawing into what the attachments of a rendering
/// region are found to be over the area they give, or into nothing for a compute one.
pub open spec fn region_shape_of(instrs: Seq<IR>, all: Seq<(ValueId, IR)>, ir: IR) -> Shape {
    let (formats, depth, samples) = match ir {
        IR::BeginRendering { attachments, .. } => {
            let found = found_over(instrs, all, attachments@);
            (found.formats, found.depth, found.samples)
        },
        _ => (Seq::empty(), None, SAMPLE_COUNT_1),
    };
    let extent = region_extent(instrs, all, ir);
    Shape {
        topology: TOPOLOGY_TRIANGLE_LIST,
        rasterization: RasterizationState::spec_default(),
        formats,
        depth,
        samples,
        dynamic: DYNAMIC_VIEWPORT | DYNAMIC_SCISSOR,
        late: ir is BeginRendering && extent is None,
        area: match extent {
            Some(e) => Rect { x: 0, y: 0, width: e.0, height: e.1 },
            None => Rect { x: 0, y: 0, width: 0, height: 0 },
        },
        depth_state: DepthState { test_enable: false, write_enable: false, compare_op: COMPARE_OP_LESS },
        blend: Seq::new(formats.len(), |i: int| preset_state(BlendPreset::Off)),
        viewports: seq![Viewport::spec_default()],
        scissors: seq![Rect2D::Framebuffer],
    }
}

/// [`region_shape_of`], kept folded where it is not looked into.
#[verifier::opaque]
pub open spec fn region_shape(instrs: Seq<IR>, all: Seq<(ValueId, IR)>, ir: IR) -> Shape {
    region_shape_of(instrs, all, ir)
}

/// What a region opens with, where `nodes` holds the access constants `all` does.
proof fn lemma_region_shape(instrs: Seq<IR>, all: Seq<(ValueId, IR)>, nodes: Seq<(ValueId, IR)>, ir: IR)
    requires
        same_access_constants(all, nodes),
    ensures
        region_shape(instrs, all, ir) == region_shape(instrs, nodes, ir),
{
    reveal(region_shape);
    if let IR::BeginRendering { attachments, .. } = ir {
        lemma_found_over_same(instrs, all, nodes, attachments@);
    }
}

/// A rendering region opened with the state [`PassState::for_rendering`] gives what its
/// attachments are found to be, over the area worked out for it, is in the shape it opens with.
proof fn lemma_opening_shape(
    instrs: Seq<IR>,
    all: Seq<(ValueId, IR)>,
    nodes: Seq<(ValueId, IR)>,
    ir: IR,
    f: InForce,
    extent: Option<(u32, u32)>,
    attachments: Seq<(ValueId, ValueId)>,
    render_area: ValueId,
)
    requires
        same_access_constants(all, nodes),
        ir matches IR::BeginRendering { attachments: a, render_area: r, .. } && a@ == attachments && r == render_area,
        f.state.rendering.color_formats@ == found_over(instrs, nodes, attachments).formats,
        f.state.rendering.depth_format == found_over(instrs, nodes, attachments).depth,
        f.state.rendering.samples == found_over(instrs, nodes, attachments).samples,
        extent == (if render_area.0 != INVALID_ID {
            extent_2d_spec(instrs, render_area)
        } else {
            found_over(instrs, nodes, attachments).extent
        }),
        f.area == (match extent {
            Some(e) => Rect { x: 0, y: 0, width: e.0, height: e.1 },
            None => Rect { x: 0, y: 0, width: 0, height: 0 },
        }),
        f.late_area == extent is None,
        f.state.blend@ == Seq::new(
            f.state.rendering.color_formats@.len(),
            |i: int| preset_state(BlendPreset::Off),
        ),
        f.state.topology == TOPOLOGY_TRIANGLE_LIST,
        f.state.rasterization == RasterizationState::spec_default(),
        f.state.depth == (DepthState { test_enable: false, write_enable: false, compare_op: COMPARE_OP_LESS }),
        f.state.viewports@ == seq![Viewport::spec_default()],
        f.state.scissors@ == seq![Rect2D::Framebuffer],
        f.state.dynamic.0 == DYNAMIC_VIEWPORT | DYNAMIC_SCISSOR,
    ensures
        shape_of(f) == region_shape(instrs, all, ir),
{
    reveal(shape_of);
    lemma_region_shape(instrs, all, nodes, ir);
    lemma_region_shape_is(instrs, nodes, ir);
    let expected = region_shape_of(instrs, nodes, ir);
    assert(f.state.blend@ =~= expected.blend);
    assert(shape_of(f).viewports =~= expected.viewports);
    assert(shape_of(f).scissors =~= expected.scissors);
    assert(shape_of(f).formats =~= expected.formats);
}

/// A compute region opened with the initial state is in the shape it opens with.
proof fn lemma_compute_shape(instrs: Seq<IR>, all: Seq<(ValueId, IR)>, ir: IR, f: InForce)
    requires
        ir is BeginCompute,
        f.state.rendering.color_formats@.len() == 0,
        f.state.rendering.depth_format is None,
        f.state.rendering.samples == SAMPLE_COUNT_1,
        f.area == (Rect { x: 0, y: 0, width: 0, height: 0 }),
        !f.late_area,
        f.state.blend@.len() == 0,
        f.state.topology == TOPOLOGY_TRIANGLE_LIST,
        f.state.rasterization == RasterizationState::spec_default(),
        f.state.depth == (DepthState { test_enable: false, write_enable: false, compare_op: COMPARE_OP_LESS }),
        f.state.viewports@ == seq![Viewport::spec_default()],
        f.state.scissors@ == seq![Rect2D::Framebuffer],
        f.state.dynamic.0 == DYNAMIC_VIEWPORT | DYNAMIC_SCISSOR,
    ensures
        shape_of(f) == region_shape(instrs, all, ir),
{
    reveal(shape_of);
    lemma_region_shape_is(instrs, all, ir);
    let expected = region_shape_of(instrs, all, ir);
    assert(shape_of(f).blend =~= expected.blend);
    assert(shape_of(f).formats =~= expected.formats);
    assert(shape_of(f).viewports =~= expected.viewports);
    assert(shape_of(f).scissors =~= expected.scissors);
}

/// What a region opens with, unfolded.
proof fn lemma_region_shape_is(instrs: Seq<IR>, all: Seq<(ValueId, IR)>, ir: IR)
    ensures
        region_shape(instrs, all, ir) == region_shape_of(instrs, all, ir),
{
    reveal(region_shape);
}

/// The shape recorded first for `pass` among `regions`, if `pass` is there.
pub open spec fn first_shape(regions: Seq<(ValueId, Shape)>, pass: ValueId) -> Option<
    Shape,
> {
    if exists|i: int| 0 <= i < regions.len() && (#[trigger] regions[i]).0 == pass {
        let i = choose|i: int|
            0 <= i < regions.len() && (#[trigger] regions[i]).0 == pass && forall|l: int| 0 <= l < i ==> (#[trigger] regions[l]).0 != pass;
        Some(regions[i].1)
    } else {
        None
    }
}

/// The shape after `ir`, where `t` was in force before it: what a state change sets replaces
/// its part.
pub open spec fn shape_after(ir: IR, t: Shape) -> Shape {
    match ir {
        IR::SetState { change, .. } => changed_shape(change, t),
        _ => t,
    }
}

/// The shape after `change` under `t`: a topology, rasterization, dynamic states or depth test
/// replace their part, a viewport, scissor or blend fills its slot, growing the list up to it,
/// and a blend for every attachment replaces each; push constants leave the shape as it is.
#[verifier::opaque]
pub open spec fn changed_shape(change: StateChange, t: Shape) -> Shape {
    match change {
        StateChange::PrimitiveTopology(n) => Shape { topology: n, ..t },
        StateChange::Rasterization(r) => Shape { rasterization: r, ..t },
        StateChange::DynamicState(d) => Shape { dynamic: d.0, ..t },
        StateChange::Depth(d) => Shape { depth_state: d, ..t },
        StateChange::Viewport { index, viewport } => Shape {
            viewports: set_slot(t.viewports, index as int, viewport, Viewport::spec_default()),
            ..t
        },
        StateChange::Scissor { index, rect } => Shape {
            scissors: set_slot(t.scissors, index as int, rect, Rect2D::Framebuffer),
            ..t
        },
        StateChange::ColorBlend { index: Some(index), blend } => Shape {
            blend: set_slot(t.blend, index as int, blend, preset_state(BlendPreset::Off)),
            ..t
        },
        StateChange::ColorBlend { index: None, blend } => Shape { blend: broadcast_blend(t.blend, blend), ..t },
        _ => t,
    }
}

/// Two copies of what is in force are in one shape.
proof fn lemma_same_shape(a: InForce, b: InForce)
    requires
        same_in_force(a, b),
    ensures
        shape_of(a) == shape_of(b),
{
    reveal(shape_of);
    assert(shape_of(a).formats =~= shape_of(b).formats);
    assert(shape_of(a).blend =~= shape_of(b).blend);
    assert(shape_of(a).viewports =~= shape_of(b).viewports);
    assert(shape_of(a).scissors =~= shape_of(b).scissors);
}

/// Binding a pipeline leaves the shape in force as it was.
proof fn lemma_bound_shape(f: InForce, p: Option<PipelineId>)
    ensures
        shape_of(InForce { pipeline: p, ..f }) == shape_of(f),
{
    reveal(shape_of);
}

/// Applies `change` to the state in force, where the pushed bytes it carries fit after their
/// offset.
fn apply_change(in_force: &mut InForce, change: &StateChange)
    requires
        old(in_force).wf(),
    ensures
        final(in_force).wf(),
        final(in_force).pipeline == old(in_force).pipeline,
        shape_of(*final(in_force)) == changed_shape(*change, shape_of(*old(in_force))),
{
    let applies = match change {
        StateChange::PushConstants { offset, data } => data.len() <= (u32::MAX - *offset) as usize,
        _ => true,
    };
    if applies {
        in_force.state.apply(change.copy());
    }
    proof {
        reveal(shape_of);
        reveal(changed_shape);
        let a = shape_of(*in_force);
        let b = changed_shape(*change, shape_of(*old(in_force)));
        assert(a.viewports =~= b.viewports);
        assert(a.scissors =~= b.scissors);
        assert(a.blend =~= b.blend);
        assert(a.formats =~= b.formats);
    }
}

/// The shape in force in the pass after each command of `s`, the first ones of `all`, that
/// stands in one, by the command's id: what the region opened with when a region opens, with
/// what a state change sets, and otherwise what is in force at the command it follows.
#[verifier::opaque]
pub open spec fn shapes(instrs: Seq<IR>, all: Seq<(ValueId, IR)>, s: Seq<(ValueId, IR)>) -> Seq<(ValueId, Shape)>
    decreases s.len(),
{
    if s.len() == 0 {
        Seq::empty()
    } else {
        let prev = shapes(instrs, all, s.drop_last());
        let id = s.last().0;
        let ir = s.last().1;
        if ir is BeginRendering || ir is BeginCompute {
            prev.push((id, region_shape(instrs, all, ir)))
        } else {
            match pass_of(ir) {
                Some(pass) => match first_shape(prev, pass) {
                    Some(t) => prev.push((id, shape_after(ir, t))),
                    None => prev,
                },
                None => prev,
            }
        }
    }
}

/// The shapes after one more command: what it pushes, where it pushes anything.
proof fn lemma_shapes_push(instrs: Seq<IR>, all: Seq<(ValueId, IR)>, index: int, expected: Option<Shape>)
    requires
        0 <= index < all.len(),
        shape_step(instrs, all, index, expected),
    ensures
        shapes(instrs, all, all.take(index + 1)) == match expected {
            Some(e) => shapes(instrs, all, all.take(index)).push((all[index].0, e)),
            None => shapes(instrs, all, all.take(index)),
        },
{
    reveal(shapes);
    assert(all.take(index + 1).drop_last() =~= all.take(index));
    assert(all.take(index + 1).last() == all[index]);
}

/// `expected` is what the pipelines bound record for the command at `index` of `all`: no
/// pipeline where a region opens, the one bound where one is bound, what is bound in its pass
/// for another command of an open pass, and nothing for one outside any.
pub open spec fn pipe_step(all: Seq<(ValueId, IR)>, index: int, expected: Option<Option<PipelineId>>) -> bool {
    &&& all[index].1 is BeginRendering || all[index].1 is BeginCompute ==> expected == Some(None::<PipelineId>)
    &&& !(all[index].1 is BeginRendering || all[index].1 is BeginCompute) ==> match pass_of(all[index].1) {
        Some(p) => match first_pipe(pipes(all.take(index)), p) {
            Some(q) => expected == Some(
                match all[index].1 {
                    IR::BindPipeline { pipeline, .. } => Some(pipeline),
                    _ => q,
                },
            ),
            None => expected is None,
        },
        None => expected is None,
    }
}

/// `expected` is the shape recorded for the command at `index` of `all`: the one a region
/// opens with, the one after a command of an open pass, and nothing for one outside any.
pub open spec fn shape_step(instrs: Seq<IR>, all: Seq<(ValueId, IR)>, index: int, expected: Option<Shape>) -> bool {
    &&& all[index].1 is BeginRendering || all[index].1 is BeginCompute ==> expected == Some(
        region_shape(instrs, all, all[index].1),
    )
    &&& !(all[index].1 is BeginRendering || all[index].1 is BeginCompute) ==> match pass_of(all[index].1) {
        Some(p) => match first_shape(shapes(instrs, all, all.take(index)), p) {
            Some(t) => expected == Some(shape_after(all[index].1, t)),
            None => expected is None,
        },
        None => expected is None,
    }
}

/// One more command of `all` records, in the pipelines bound, what `expected` says.
proof fn lemma_pipes_push(all: Seq<(ValueId, IR)>, index: int, expected: Option<Option<PipelineId>>)
    requires
        0 <= index < all.len(),
        pipe_step(all, index, expected),
    ensures
        pipes(all.take(index + 1)) == match expected {
            Some(e) => pipes(all.take(index)).push((all[index].0, e)),
            None => pipes(all.take(index)),
        },
{
    reveal(pipes);
    assert(all.take(index + 1).drop_last() =~= all.take(index));
    assert(all.take(index + 1).last() == all[index]);
}

/// The shape `f` holds.
#[verifier::opaque]
pub open spec fn shape_of(f: InForce) -> Shape {
    Shape {
        topology: f.state.topology,
        rasterization: f.state.rasterization,
        formats: f.state.rendering.color_formats@,
        depth: f.state.rendering.depth_format,
        samples: f.state.rendering.samples,
        dynamic: f.state.dynamic.0,
        late: f.late_area,
        area: f.area,
        depth_state: f.state.depth,
        blend: f.state.blend@,
        viewports: f.state.viewports@,
        scissors: f.state.scissors@,
    }
}

/// `regions` records, entry for entry, the ids, shapes and rasterizations `ts` lists.
pub open spec fn tracks_shapes(regions: Seq<(ValueId, InForce)>, ts: Seq<(ValueId, Shape)>) -> bool {
    &&& regions.len() == ts.len()
    &&& forall|k: int| 0 <= k < regions.len() ==> (#[trigger] regions[k]).0 == ts[k].0 && shape_of(regions[k].1) == ts[k].1
}

/// Recording one more command, or none, keeps the regions tracking the shapes.
proof fn lemma_tracks_shapes_step(
    before: Seq<(ValueId, InForce)>,
    after: Seq<(ValueId, InForce)>,
    ts: Seq<(ValueId, Shape)>,
    next: Seq<(ValueId, Shape)>,
    pushed: Option<(ValueId, Shape)>,
)
    requires
        tracks_shapes(before, ts),
        pushed matches Some(e) ==> after == before.push((e.0, after.last().1)) && after.len() > 0 && shape_of(after.last().1) == e.1
            && next == ts.push(e),
        pushed is None ==> after == before && next == ts,
    ensures
        tracks_shapes(after, next),
{
    if let Some(e) = pushed {
        assert forall|k: int| 0 <= k < after.len() implies (#[trigger] after[k]).0 == next[k].0 && shape_of(after[k].1) == next[k].1 by {
            if k < before.len() {
                assert(after[k] == before[k]);
            }
        }
    }
}

/// What looking a pass up among the regions found, in terms of the shapes tracked.
proof fn lemma_shape_found(
    regions: Seq<(ValueId, InForce)>,
    ts: Seq<(ValueId, Shape)>,
    pass: ValueId,
    found: Option<InForce>,
)
    requires
        tracks_shapes(regions, ts),
        found matches Some(f) ==> exists|i: int|
            0 <= i < regions.len() && (#[trigger] regions[i]).0 == pass && same_in_force(f, regions[i].1) && forall|j: int|
                0 <= j < i ==> (#[trigger] regions[j]).0 != pass,
        found is None ==> forall|j: int| 0 <= j < regions.len() ==> (#[trigger] regions[j]).0 != pass,
    ensures
        found matches Some(f) ==> first_shape(ts, pass) == Some(shape_of(f)),
        found is None ==> first_shape(ts, pass) is None,
{
    match found {
        Some(f) => {
            let i = choose|i: int|
                0 <= i < regions.len() && (#[trigger] regions[i]).0 == pass && same_in_force(f, regions[i].1) && forall|j: int|
                    0 <= j < i ==> (#[trigger] regions[j]).0 != pass;
            lemma_same_shape(f, regions[i].1);
            assert(ts[i].0 == pass);
            assert forall|l: int| 0 <= l < i implies (#[trigger] ts[l]).0 != pass by {
                assert(regions[l].0 == ts[l].0);
            }
            let c = choose|c: int| 0 <= c < ts.len() && (#[trigger] ts[c]).0 == pass && forall|l: int| 0 <= l < c ==> (#[trigger] ts[l]).0 != pass;
            assert(c == i) by {
                if c < i {
                    assert(ts[c].0 != pass);
                }
                if i < c {
                    assert(ts[i].0 != pass);
                }
            }
        },
        None => {
            assert forall|l: int| 0 <= l < ts.len() implies (#[trigger] ts[l]).0 != pass by {
                assert(regions[l].0 == ts[l].0);
            }
        },
    }
}

/// The dynamic states a draw runs with under `t`: those in force, and the viewports and
/// scissors too where the region's area is only known when the program runs.
pub open spec fn effective_dynamic(t: Shape) -> u32 {
    if t.late {
        t.dynamic | DYNAMIC_VIEWPORT | DYNAMIC_SCISSOR
    } else {
        t.dynamic
    }
}

/// The viewports and scissors a draw is resolved with under `t`: those set, or none where
/// either list is too long to count.
pub open spec fn counted_slots(t: Shape) -> (Seq<Viewport>, Seq<Rect2D>) {
    if t.viewports.len() <= u32::MAX && t.scissors.len() <= u32::MAX {
        (t.viewports, t.scissors)
    } else {
        (Seq::empty(), Seq::empty())
    }
}

/// The draw or opaque call `ir` runs with what `t` decides: its topology, rasterization,
/// formats and sample count, its dynamic states, the region's area baked in unless both
/// viewports and scissors are dynamic, the depth test where there is a depth attachment, a
/// blend for each color attachment, and as many viewports and scissors as the longer list
/// holds (at least one), recorded with the draw where they are dynamic and baked in where not.
pub open spec fn runs_with(ir: IR, t: Shape) -> bool {
    match ir {
        IR::Draw { state, dynamic, .. } | IR::DrawIndexed { state, dynamic, .. } | IR::CallOpaque {
            state,
            dynamic,
            ..
        } => draw_runs_with(state, dynamic, t),
        _ => false,
    }
}

/// A draw with `state` and `dynamic` values runs with the shape `t`, as [`runs_with`] spells
/// out; kept folded where it is only passed along.
#[verifier::opaque]
pub open spec fn draw_runs_with(state: crate::state::PipelineState, dynamic: crate::state::DynamicValues, t: Shape) -> bool {
            let flags = effective_dynamic(t);
            let (viewports, scissors) = counted_slots(t);
            let count = max_int(max_int(viewports.len() as int, scissors.len() as int), 1);
            &&& state.topology == t.topology
            &&& state.rasterization == t.rasterization
            &&& state.rendering.color_formats@ == t.formats
            &&& state.rendering.depth_format == t.depth
            &&& state.rendering.samples == t.samples
            &&& state.dynamic.0 == flags
            &&& state.area == (if flags & (DYNAMIC_VIEWPORT | DYNAMIC_SCISSOR) == (DYNAMIC_VIEWPORT | DYNAMIC_SCISSOR) {
                Rect { x: 0, y: 0, width: 0, height: 0 }
            } else {
                t.area
            })
            &&& state.depth == (if t.depth is Some {
                t.depth_state
            } else {
                DepthState { test_enable: false, write_enable: false, compare_op: COMPARE_OP_LESS }
            })
            &&& state.blend@ == padded(t.blend, t.formats.len() as int, preset_state(BlendPreset::Off))
            &&& state.viewport_count == count
            &&& flags & DYNAMIC_VIEWPORT == DYNAMIC_VIEWPORT ==> state.viewports@.len() == 0 && dynamic.viewports@
                == padded(viewports, count, Viewport::spec_default())
            &&& flags & DYNAMIC_VIEWPORT != DYNAMIC_VIEWPORT ==> dynamic.viewports@.len() == 0 && state.viewports@
                == padded(viewports, count, Viewport::spec_default())
            &&& flags & DYNAMIC_SCISSOR == DYNAMIC_SCISSOR ==> state.scissors@.len() == 0 && dynamic.scissors@ == padded(
                scissors,
                count,
                Rect2D::Framebuffer,
            )
            &&& flags & DYNAMIC_SCISSOR != DYNAMIC_SCISSOR ==> dynamic.scissors@.len() == 0 && state.scissors@ == padded(
                scissors,
                count,
                Rect2D::Framebuffer,
            )
}

/// `after` is what inference made of the draw or opaque call `before` at position `k` of
/// `nodes`: where it stands in an open pass, it runs with the shape in force there.
#[verifier::opaque]
pub open spec fn shape_inferred(instrs: Seq<IR>, nodes: Seq<(ValueId, IR)>, k: int, before: IR, after: IR) -> bool {
    (before is Draw || before is DrawIndexed || before is CallOpaque) ==> match first_shape(
        shapes(instrs, nodes, nodes.take(k)),
        pass_of(before)->0,
    ) {
        Some(t) => runs_with(after, t),
        None => true,
    }
}

/// `after` names the pipeline `in_force` says is bound: that one where there is one, an
/// invalid one where there is none.
pub open spec fn names_pipeline(after: IR, in_force: Option<PipelineId>) -> bool {
    match in_force {
        Some(p) => drawn_pipeline(after) == p,
        None => !drawn_pipeline(after).valid(),
    }
}

/// `after` is what inference made of the draw, opaque call or dispatch `before` at position
/// `k` of `nodes`: it names the pipeline bound in its pass there, or it is left as it was where
/// it stands in no open pass.
#[verifier::opaque]
pub open spec fn pipeline_inferred(nodes: Seq<(ValueId, IR)>, k: int, before: IR, after: IR) -> bool {
    is_drawing(before) ==> match first_pipe(pipes(nodes.take(k)), pass_of(before)->0) {
        Some(p) => names_pipeline(after, p),
        None => after == before,
    }
}

/// Every draw, opaque call and dispatch of `s` that stands in an open pass names the pipeline
/// bound in that pass before it, or the invalid one where none was bound since it opened.
pub open spec fn draws_name_bound_pipelines(s: Seq<(ValueId, IR)>) -> bool {
    forall|k: int|
        0 <= k < s.len() && is_drawing(#[trigger] s[k].1) ==> match first_pipe(pipes(s.take(k)), pass_of(s[k].1)->0) {
            Some(p) => names_pipeline(s[k].1, p),
            None => true,
        }
}

/// The pipeline a bind names, if `ir` is one.
pub open spec fn bound_by(ir: IR) -> Option<PipelineId> {
    match ir {
        IR::BindPipeline { pipeline, .. } => Some(pipeline),
        _ => None,
    }
}

proof fn lemma_inferred_alike(x: IR, y: IR)
    requires
        inferred_from(x, y),
    ensures
        (x is BeginRendering) == (y is BeginRendering),
        (x is BeginCompute) == (y is BeginCompute),
        pass_of(x) == pass_of(y),
        bound_by(x) == bound_by(y),
        is_drawing(y) ==> is_drawing(x),
        !is_drawing(x) ==> y == x,
{
}

/// Inference changes nothing that decides which shape is in force where.
proof fn lemma_shapes_inferred(
    instrs: Seq<IR>,
    all_a: Seq<(ValueId, IR)>,
    all_b: Seq<(ValueId, IR)>,
    a: Seq<(ValueId, IR)>,
    b: Seq<(ValueId, IR)>,
)
    requires
        same_access_constants(all_a, all_b),
        a.len() == b.len(),
        forall|k: int| 0 <= k < a.len() ==> (#[trigger] b[k]).0 == a[k].0 && inferred_from(a[k].1, b[k].1),
    ensures
        shapes(instrs, all_a, a) == shapes(instrs, all_b, b),
    decreases a.len(),
{
    reveal(shapes);
    if a.len() > 0 {
        let ad = a.drop_last();
        let bd = b.drop_last();
        assert forall|k: int| 0 <= k < ad.len() implies (#[trigger] bd[k]).0 == ad[k].0 && inferred_from(ad[k].1, bd[k].1) by {
            assert(bd[k] == b[k]);
            assert(ad[k] == a[k]);
        }
        lemma_shapes_inferred(instrs, all_a, all_b, ad, bd);
        let x = a.last().1;
        let y = b.last().1;
        assert(b[b.len() - 1].0 == a[a.len() - 1].0 && inferred_from(a[a.len() - 1].1, b[b.len() - 1].1));
        lemma_inferred_alike(x, y);
        assert forall|t: Shape| #[trigger] shape_after(x, t) == shape_after(y, t) by {
            if is_drawing(x) {
                assert(!(x is SetState));
                assert(!(y is SetState));
            }
        }
        reveal(region_shape);
        if let IR::BeginRendering { attachments, .. } = x {
            lemma_found_over_same(instrs, all_a, all_b, attachments@);
        }
        assert(region_shape(instrs, all_a, x) == region_shape(instrs, all_b, y));
    }
}

/// Every draw and opaque call of `s` that stands in an open pass runs with the shape in force
/// in that pass before it: the topology, rasterization, dynamic states, depth test, blends,
/// viewports and scissors set since the region opened (what a region opens with where none
/// was), and the formats, sample count and area of what the region draws into.
pub open spec fn draws_run_with_shapes(instrs: Seq<IR>, s: Seq<(ValueId, IR)>) -> bool {
    forall|k: int|
        0 <= k < s.len() && (s[k].1 is Draw || s[k].1 is DrawIndexed || (#[trigger] s[k]).1 is CallOpaque)
            ==> match first_shape(shapes(instrs, s, s.take(k)), pass_of(s[k].1)->0) {
            Some(t) => runs_with(s[k].1, t),
            None => true,
        }
}

/// What inference promises of each draw's shape, read off the program it produced.
proof fn lemma_draws_shape(instrs: Seq<IR>, original: Seq<(ValueId, IR)>, r: Seq<(ValueId, IR)>)
    requires
        r.len() == original.len(),
        forall|k: int| 0 <= k < original.len() ==> (#[trigger] r[k]).0 == original[k].0 && inferred_from(original[k].1, r[k].1),
        forall|k: int| 0 <= k < original.len() ==> shape_inferred(instrs, original, k, original[k].1, (#[trigger] r[k]).1),
    ensures
        draws_run_with_shapes(instrs, r),
{
    lemma_inference_keeps_constants(original, r);
    assert forall|k: int|
        0 <= k < r.len() && (r[k].1 is Draw || r[k].1 is DrawIndexed || (#[trigger] r[k]).1 is CallOpaque) implies match first_shape(
        shapes(instrs, r, r.take(k)),
        pass_of(r[k].1)->0,
    ) {
        Some(t) => runs_with(r[k].1, t),
        None => true,
    } by {
        let ot = original.take(k);
        let rt = r.take(k);
        assert forall|j: int| 0 <= j < ot.len() implies (#[trigger] rt[j]).0 == ot[j].0 && inferred_from(ot[j].1, rt[j].1) by {
            assert(rt[j] == r[j]);
            assert(ot[j] == original[j]);
        }
        lemma_shapes_inferred(instrs, original, r, ot, rt);
        assert(inferred_from(original[k].1, r[k].1));
        lemma_inferred_alike(original[k].1, r[k].1);
        reveal(shape_inferred);
        assert(shape_inferred(instrs, original, k, original[k].1, r[k].1));
    }
}

/// Inference changes nothing that decides which pipeline is bound where.
proof fn lemma_pipes_inferred(a: Seq<(ValueId, IR)>, b: Seq<(ValueId, IR)>)
    requires
        a.len() == b.len(),
        forall|k: int| 0 <= k < a.len() ==> (#[trigger] b[k]).0 == a[k].0 && inferred_from(a[k].1, b[k].1),
    ensures
        pipes(a) == pipes(b),
    decreases a.len(),
{
    reveal(pipes);
    if a.len() > 0 {
        let ad = a.drop_last();
        let bd = b.drop_last();
        assert forall|k: int| 0 <= k < ad.len() implies (#[trigger] bd[k]).0 == ad[k].0 && inferred_from(ad[k].1, bd[k].1) by {
            assert(bd[k] == b[k]);
            assert(ad[k] == a[k]);
        }
        lemma_pipes_inferred(ad, bd);
        let x = a.last().1;
        let y = b.last().1;
        assert(b[b.len() - 1].0 == a[a.len() - 1].0 && inferred_from(a[a.len() - 1].1, b[b.len() - 1].1));
        lemma_inferred_alike(x, y);
        assert((match x {
            IR::BindPipeline { pipeline, .. } => Some(pipeline),
            _ => None::<PipelineId>,
        }) == bound_by(x));
    }
}

/// What inference promises of each draw, read off the program it produced.
proof fn lemma_draws_named(original: Seq<(ValueId, IR)>, r: Seq<(ValueId, IR)>)
    requires
        r.len() == original.len(),
        forall|k: int| 0 <= k < original.len() ==> (#[trigger] r[k]).0 == original[k].0 && inferred_from(original[k].1, r[k].1),
        forall|k: int| 0 <= k < original.len() ==> pipeline_inferred(original, k, original[k].1, (#[trigger] r[k]).1),
    ensures
        draws_name_bound_pipelines(r),
{
    assert forall|k: int| 0 <= k < r.len() && is_drawing(#[trigger] r[k].1) implies match first_pipe(pipes(r.take(k)), pass_of(r[k].1)->0) {
        Some(p) => names_pipeline(r[k].1, p),
        None => true,
    } by {
        let ot = original.take(k);
        let rt = r.take(k);
        assert forall|j: int| 0 <= j < ot.len() implies (#[trigger] rt[j]).0 == ot[j].0 && inferred_from(ot[j].1, rt[j].1) by {
            assert(rt[j] == r[j]);
            assert(ot[j] == original[j]);
        }
        lemma_pipes_inferred(ot, rt);
        assert(inferred_from(original[k].1, r[k].1));
        lemma_inferred_alike(original[k].1, r[k].1);
        reveal(pipeline_inferred);
        assert(pipeline_inferred(original, k, original[k].1, r[k].1));
    }
}

/// Fills in what each draw and dispatch runs with: the pipeline bound before it in its pass
/// (the invalid one where none was), the state the pass's state changes left in force,
/// resolved against the area the region was opened over, and for a dispatch the push
/// constants in force. A region whose area is only known when the program runs records its
/// viewports and scissors with each draw instead of baking them into the pipeline.
pub fn infer(instrs: &Vec<IR>, nodes: Vec<(ValueId, IR)>) -> (r: Vec<(ValueId, IR)>)
    ensures
        r@.len() == nodes@.len(),
        forall|k: int| 0 <= k < nodes@.len() ==> (#[trigger] r@[k]).0 == nodes@[k].0 && inferred_from(
            nodes@[k].1,
            r@[k].1,
        ),
        forall|k: int| 0 <= k < nodes@.len() ==> pipeline_inferred(nodes@, k, nodes@[k].1, (#[trigger] r@[k]).1),
        forall|k: int| 0 <= k < nodes@.len() ==> shape_inferred(instrs@, nodes@, k, nodes@[k].1, (#[trigger] r@[k]).1),
        draws_name_bound_pipelines(r@),
        draws_run_with_shapes(instrs@, r@),
{
    let r = infer_in_order(instrs, nodes);
    proof {
        lemma_draws_named(nodes@, r@);
        lemma_draws_shape(instrs@, nodes@, r@);
    }
    r
}

/// The pipeline bound that `entry`, where there is one, records.
pub open spec fn entry_pipe(entry: Option<InForce>) -> Option<Option<PipelineId>> {
    match entry {
        Some(f) => Some(f.pipeline),
        None => None,
    }
}

/// The shape that `entry`, where there is one, holds.
pub open spec fn entry_shape(entry: Option<InForce>) -> Option<Shape> {
    match entry {
        Some(f) => Some(shape_of(f)),
        None => None,
    }
}

/// What inference makes of the command at `index`: the draw it becomes, where it is one, and
/// what is in force in its pass after it, where it stands in an open one.
#[verifier::spinoff_prover]
#[verifier::rlimit(100)]
fn infer_step(
    instrs: &Vec<IR>,
    nodes: &Vec<(ValueId, IR)>,
    regions: &Vec<(ValueId, InForce)>,
    index: usize,
    Ghost(original): Ghost<Seq<(ValueId, IR)>>,
) -> (r: (Option<IR>, Option<InForce>))
    requires
        index < nodes@.len(),
        nodes@.len() == original.len(),
        nodes@[index as int] == original[index as int],
        forall|k: int| 0 <= k < nodes@.len() ==> (#[trigger] nodes@[k]).0 == original[k].0 && inferred_from(
            original[k].1,
            nodes@[k].1,
        ),
        forall|k: int| 0 <= k < regions@.len() ==> (#[trigger] regions@[k]).1.wf(),
        tracks_pipes(regions@, pipes(original.take(index as int))),
        tracks_shapes(regions@, shapes(instrs@, original, original.take(index as int))),
    ensures
        r.1 matches Some(f) ==> f.wf(),
        pipe_step(original, index as int, entry_pipe(r.1)),
        shape_step(instrs@, original, index as int, entry_shape(r.1)),
        r.0 matches Some(ir) ==> inferred_from(original[index as int].1, ir),
        pipeline_inferred(original, index as int, original[index as int].1, match r.0 {
            Some(ir) => ir,
            None => original[index as int].1,
        }),
        shape_inferred(instrs@, original, index as int, original[index as int].1, match r.0 {
            Some(ir) => ir,
            None => original[index as int].1,
        }),
{
    let mut replacement: Option<IR> = None;
    let mut entry: Option<InForce> = None;
    let ghost ps = pipes(original.take(index as int));
    let ghost ts = shapes(instrs@, original, original.take(index as int));
    match &nodes[index].1 {
        IR::BeginRendering { attachments, render_area, .. } => {
            let (rendering, attachment_extent) = rendering_of(instrs, nodes, attachments);
            let extent = if render_area.0 != INVALID_ID {
                extent_2d_at(instrs, *render_area)
            } else {
                attachment_extent
            };
            let (width, height) = match extent {
                Some(e) => e,
                None => (0, 0),
            };
            let state = PassState::for_rendering(rendering);
            let in_force = InForce {
                state,
                area: Rect { x: 0, y: 0, width, height },
                pipeline: None,
                late_area: extent.is_none(),
            };
            proof {
                lemma_inference_keeps_constants(original, nodes@);
                lemma_opening_shape(
                    instrs@,
                    original,
                    nodes@,
                    original[index as int].1,
                    in_force,
                    extent,
                    attachments@,
                    *render_area,
                );
            }
            entry = Some(in_force);
        },
        IR::BeginCompute { .. } => {
            let state = PassState::initial();
            let in_force = InForce {
                state,
                area: Rect { x: 0, y: 0, width: 0, height: 0 },
                pipeline: None,
                late_area: false,
            };
            proof {
                lemma_compute_shape(instrs@, original, original[index as int].1, in_force);
            }
            entry = Some(in_force);
        },
        IR::BindPipeline { pass, pipeline, .. } => {
            let found = in_force_at(regions, *pass);
            proof {
                lemma_pipe_found(regions@, ps, *pass, found);
                lemma_shape_found(regions@, ts, *pass, found);
            }
            if let Some(mut in_force) = found {
                let ghost unbound = in_force;
                in_force.pipeline = Some(*pipeline);
                proof {
                    lemma_bound_shape(unbound, Some(*pipeline));
                }
                entry = Some(in_force);
            }
        },
        IR::SetState { pass, change } => {
            let found = in_force_at(regions, *pass);
            proof {
                lemma_pipe_found(regions@, ps, *pass, found);
                lemma_shape_found(regions@, ts, *pass, found);
            }
            if let Some(mut in_force) = found {
                apply_change(&mut in_force, change);
                entry = Some(in_force);
            }
        },
        IR::Draw { pass, vertex_count, instance_count, first_vertex, first_instance, .. } => {
            let found = in_force_at(regions, *pass);
            proof {
                lemma_pipe_found(regions@, ps, *pass, found);
                lemma_shape_found(regions@, ts, *pass, found);
            }
            if let Some(in_force) = found {
                let (pipeline, state, dynamic) = resolved_draw(&in_force);
                replacement = Some(
                    IR::Draw {
                        pass: *pass,
                        vertex_count: *vertex_count,
                        instance_count: *instance_count,
                        first_vertex: *first_vertex,
                        first_instance: *first_instance,
                        pipeline,
                        state,
                        dynamic,
                    },
                );
                entry = Some(in_force);
            }
        },
        IR::DrawIndexed { pass, index_count, instance_count, first_index, vertex_offset, first_instance, .. } => {
            let found = in_force_at(regions, *pass);
            proof {
                lemma_pipe_found(regions@, ps, *pass, found);
                lemma_shape_found(regions@, ts, *pass, found);
            }
            if let Some(in_force) = found {
                let (pipeline, state, dynamic) = resolved_draw(&in_force);
                replacement = Some(
                    IR::DrawIndexed {
                        pass: *pass,
                        index_count: *index_count,
                        instance_count: *instance_count,
                        first_index: *first_index,
                        vertex_offset: *vertex_offset,
                        first_instance: *first_instance,
                        pipeline,
                        state,
                        dynamic,
                    },
                );
                entry = Some(in_force);
            }
        },
        IR::CallOpaque { pass, body, .. } => {
            let found = in_force_at(regions, *pass);
            proof {
                lemma_pipe_found(regions@, ps, *pass, found);
                lemma_shape_found(regions@, ts, *pass, found);
            }
            if let Some(in_force) = found {
                let (pipeline, state, dynamic) = resolved_draw(&in_force);
                replacement = Some(IR::CallOpaque { pass: *pass, body: *body, pipeline, state, dynamic });
                entry = Some(in_force);
            }
        },
        IR::Dispatch { pass, size, .. } => {
            let found = in_force_at(regions, *pass);
            proof {
                lemma_pipe_found(regions@, ps, *pass, found);
                lemma_shape_found(regions@, ts, *pass, found);
            }
            if let Some(in_force) = found {
                let pipeline = match in_force.pipeline {
                    Some(p) => p,
                    None => PipelineId::invalid(),
                };
                let push_constants = in_force.state.push_constants.copy();
                replacement = Some(IR::Dispatch { pass: *pass, size: *size, pipeline, push_constants });
                entry = Some(in_force);
            }
        },
        IR::BindVertexBuffers { pass, .. } | IR::BindIndexBuffer { pass, .. } | IR::WriteDescriptor { pass, .. }
        | IR::EndRendering { pass } | IR::EndCompute { pass } => {
            let found = in_force_at(regions, *pass);
            proof {
                lemma_pipe_found(regions@, ps, *pass, found);
                lemma_shape_found(regions@, ts, *pass, found);
            }
            if let Some(in_force) = found {
                entry = Some(in_force);
            }
        },
        _ => {},
    }
    proof {
        reveal(pipeline_inferred);
        reveal(shape_inferred);
    }
    (replacement, entry)
}

/// Inference itself, one instruction after another.
#[verifier::spinoff_prover]
#[verifier::rlimit(100)]
fn infer_in_order(instrs: &Vec<IR>, nodes: Vec<(ValueId, IR)>) -> (r: Vec<(ValueId, IR)>)
    ensures
        r@.len() == nodes@.len(),
        forall|k: int| 0 <= k < nodes@.len() ==> (#[trigger] r@[k]).0 == nodes@[k].0 && inferred_from(
            nodes@[k].1,
            r@[k].1,
        ),
        forall|k: int| 0 <= k < nodes@.len() ==> pipeline_inferred(nodes@, k, nodes@[k].1, (#[trigger] r@[k]).1),
        forall|k: int| 0 <= k < nodes@.len() ==> shape_inferred(instrs@, nodes@, k, nodes@[k].1, (#[trigger] r@[k]).1),
{
    let mut nodes = nodes;
    let ghost original = nodes@;
    let mut regions: Vec<(ValueId, InForce)> = Vec::new();
    proof {
        reveal(shapes);
        reveal(pipes);
        assert(shapes(instrs@, original, original.take(0)) == Seq::<(ValueId, Shape)>::empty());
        assert(pipes(original.take(0)) == Seq::<(ValueId, Option<PipelineId>)>::empty());
    }
    let mut index: usize = 0;
    while index < nodes.len()
        invariant
            index <= nodes@.len(),
            nodes@.len() == original.len(),
            forall|k: int| 0 <= k < regions@.len() ==> (#[trigger] regions@[k]).1.wf(),
            forall|k: int| 0 <= k < nodes@.len() ==> (#[trigger] nodes@[k]).0 == original[k].0 && inferred_from(
                original[k].1,
                nodes@[k].1,
            ),
            forall|k: int| index <= k < nodes@.len() ==> #[trigger] nodes@[k] == original[k],
            tracks_pipes(regions@, pipes(original.take(index as int))),
            forall|k: int| 0 <= k < index ==> pipeline_inferred(original, k, original[k].1, (#[trigger] nodes@[k]).1),
            tracks_shapes(regions@, shapes(instrs@, original, original.take(index as int))),
            forall|k: int| 0 <= k < index ==> shape_inferred(instrs@, original, k, original[k].1, (#[trigger] nodes@[k]).1),
        decreases nodes@.len() - index,
    {
        let value_id = nodes[index].0;
        let ghost before_regions = regions@;
        let ghost ps = pipes(original.take(index as int));
        let ghost ts = shapes(instrs@, original, original.take(index as int));
        let (replacement, entry) = infer_step(instrs, &nodes, &regions, index, Ghost(original));
        let ghost pushed = entry_pipe(entry);
        let ghost shape_pushed = entry_shape(entry);
        if let Some(in_force) = entry {
            regions.push((value_id, in_force));
        }
        let ghost before_nodes = nodes@;
        if let Some(ir) = replacement {
            nodes.set(index, (value_id, ir));
        }
        proof {
            let next = pipes(original.take(index + 1));
            lemma_pipes_push(original, index as int, pushed);
            let next_t = shapes(instrs@, original, original.take(index + 1));
            lemma_shapes_push(instrs@, original, index as int, shape_pushed);
            match shape_pushed {
                Some(tp) => {
                    assert(regions@ =~= before_regions.push((value_id, regions@.last().1)));
                    lemma_tracks_shapes_step(before_regions, regions@, ts, next_t, Some((value_id, tp)));
                },
                None => {
                    lemma_tracks_shapes_step(before_regions, regions@, ts, next_t, None);
                },
            }
            assert forall|k: int| 0 <= k < index + 1 implies shape_inferred(instrs@, original, k, original[k].1, (#[trigger] nodes@[k]).1) by {
                if k < index {
                    assert(nodes@[k] == before_nodes[k]);
                }
            }
            match pushed {
                Some(pp) => {
                    assert(regions@ =~= before_regions.push((value_id, regions@.last().1)));
                    assert(next == ps.push((value_id, pp)));
                    assert forall|k: int| 0 <= k < regions@.len() implies (#[trigger] regions@[k]).0 == next[k].0
                        && regions@[k].1.pipeline == next[k].1 by {
                        if k < before_regions.len() {
                            assert(regions@[k] == before_regions[k]);
                        }
                    }
                },
                None => {
                    assert(regions@ == before_regions);
                    assert(next == ps);
                },
            }
            assert forall|k: int| 0 <= k < index + 1 implies pipeline_inferred(original, k, original[k].1, (#[trigger] nodes@[k]).1) by {
                if k < index {
                    assert(nodes@[k] == before_nodes[k]);
                }
            }
        }
        index = index + 1;
    }
    nodes
}

/// The pipeline, state and dynamic values a draw runs with under `in_force`.
fn resolved_draw(in_force: &InForce) -> (r: (PipelineId, crate::state::PipelineState, crate::state::DynamicValues))
    requires
        in_force.wf(),
    ensures
        in_force.pipeline matches Some(p) ==> r.0 == p,
        in_force.pipeline is None ==> !r.0.valid(),
        r.1.rendering.color_formats@ == in_force.state.rendering.color_formats@,
        r.1.rendering.depth_format == in_force.state.rendering.depth_format,
        r.1.rendering.samples == in_force.state.rendering.samples,
        r.1.topology == in_force.state.topology,
        r.1.rasterization == in_force.state.rasterization,
        r.1.dynamic.0 == (if in_force.late_area {
            in_force.state.dynamic.0 | DYNAMIC_VIEWPORT | DYNAMIC_SCISSOR
        } else {
            in_force.state.dynamic.0
        }),
        r.1.area == (if r.1.dynamic.0 & (DYNAMIC_VIEWPORT | DYNAMIC_SCISSOR) == (DYNAMIC_VIEWPORT | DYNAMIC_SCISSOR) {
            Rect { x: 0, y: 0, width: 0, height: 0 }
        } else {
            in_force.area
        }),
        r.2.push_constants.offset == in_force.state.push_constants.offset,
        r.2.push_constants.data@ == in_force.state.push_constants.data@,
        r.2.push_sources@ == in_force.state.push_sources@,
        draw_runs_with(r.1, r.2, shape_of(*in_force)),
{
    let pipeline = match in_force.pipeline {
        Some(p) => p,
        None => PipelineId::invalid(),
    };
    let mut resolved = in_force.state.copy();
    if in_force.late_area {
        resolved.dynamic = DynamicStateFlags(resolved.dynamic.0 | DYNAMIC_VIEWPORT | DYNAMIC_SCISSOR);
    }
    if resolved.viewports.len() > u32::MAX as usize || resolved.scissors.len() > u32::MAX as usize {
        resolved.viewports = Vec::new();
        resolved.scissors = Vec::new();
    }
    let (state, dynamic) = resolved.resolve(in_force.area);
    proof {
        reveal(draw_runs_with);
        reveal(shape_of);
    }
    (pipeline, state, dynamic)
}


/// Putting the types and constants first keeps every write after its barrier.
pub proof fn lemma_globals_first_prepared(nodes: Seq<(ValueId, IR)>)
    requires
        writes_prepared(nodes),
    ensures
        writes_prepared(nodes.filter(is_type_node()) + nodes.filter(is_constant_node()) + nodes.filter(is_other_node())),
{
    assert forall|k: int| 0 <= k < nodes.len() && orders_writes((#[trigger] nodes[k]).1) implies is_other_node()(nodes[k]) by {}
    lemma_prepared_filter(nodes, is_other_node());
    let globals = nodes.filter(is_type_node()) + nodes.filter(is_constant_node());
    assert forall|k: int| 0 <= k < globals.len() implies !orders_writes((#[trigger] globals[k]).1) by {
        let t = nodes.filter(is_type_node());
        if k < t.len() {
            nodes.lemma_filter_pred(is_type_node(), k);
            assert(globals[k] == t[k]);
        } else {
            let c = nodes.filter(is_constant_node());
            nodes.lemma_filter_pred(is_constant_node(), k - t.len());
            assert(globals[k] == c[k - t.len()]);
        }
    }
    lemma_prepared_after(globals, nodes.filter(is_other_node()));
}

/// Widening usages leaves the writes and image barriers where they were.
pub proof fn lemma_usage_keeps_writes(before: IR, after: IR)
    requires
        usage_widened(before, after),
    ensures
        orders_writes(before) || orders_writes(after) ==> after == before,
{
}

/// Inference leaves the writes and image barriers where they were.
pub proof fn lemma_inference_keeps_writes(before: IR, after: IR)
    requires
        inferred_from(before, after),
    ensures
        orders_writes(before) || orders_writes(after) ==> after == before,
{
}

} // verus!
