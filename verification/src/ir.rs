use vstd::prelude::*;

use crate::access::{
    Access, ACCESS_ATTRIBUTE_READ, ACCESS_BLIT_READ, ACCESS_BLIT_WRITE, ACCESS_CLEAR, ACCESS_COLOR_READ,
    ACCESS_COLOR_WRITE, ACCESS_COPY_READ, ACCESS_COPY_WRITE, ACCESS_DEPTH_STENCIL_READ,
    ACCESS_DEPTH_STENCIL_WRITE, ACCESS_INDEX_READ, ACCESS_INDIRECT_READ,
};
use crate::ids::{LabelId, PipelineId, ValueId};
use crate::resource::{Buffer, BufferImageCopy, Extent2D, Extent3D, Image, MemoryLocation};
use crate::state::{DynamicValues, PipelineState, PushConstants, StateChange};

verus! {

/// How many instructions a resource is followed back through before the search gives up.
pub const MAX_RESOLVE_DEPTH: usize = 256;

/// Vulkan's raw descriptor types an image descriptor is written as.
pub const DESCRIPTOR_TYPE_COMBINED_IMAGE_SAMPLER: i32 = 1;
pub const DESCRIPTOR_TYPE_SAMPLED_IMAGE: i32 = 2;

/// Vulkan's raw pipeline bind points.
pub const BIND_POINT_GRAPHICS: i32 = 0;
pub const BIND_POINT_COMPUTE: i32 = 1;

/// A clear color, held as the bit patterns of its four channels.
#[derive(Debug, Clone, Copy, PartialEq, Eq, Hash, Structural)]
pub struct ClearValue {
    pub r: u32,
    pub g: u32,
    pub b: u32,
    pub a: u32,
}

#[derive(Debug, Clone, Copy, PartialEq, Eq, Hash, Structural)]
pub enum Type {
    Image { format: i32, samples: u32 },
    Buffer,
}

#[derive(Debug, Clone, PartialEq, Eq, Hash)]
pub enum Constant {
    I32(i32),
    U32(u32),
    Size(u64),
    Extent2D(Extent2D),
    Extent3D(Extent3D),
    String(String),
    Access(Access),
    ClearValue(ClearValue),
}

#[derive(Debug, Clone, Copy, PartialEq, Eq, Hash, Structural)]
pub enum VariableKind {
    Bool,
    I32,
    U32,
    Extent2D,
    Extent3D,
    ClearValue,
    Bytes(u32),
    Swapchain,
    Buffer,
    ImageAttachment,
    Callback,
}

/// What an image descriptor holds: the image, and the raw sampler handle of a combined one.
#[derive(Debug, Clone, Copy, PartialEq, Eq, Hash, Structural)]
pub enum Descriptor {
    SampledImage { image: ValueId },
    CombinedImageSampler { image: ValueId, sampler: u64 },
}

impl Descriptor {
    pub open spec fn spec_image(&self) -> ValueId {
        match *self {
            Descriptor::SampledImage { image } => image,
            Descriptor::CombinedImageSampler { image, .. } => image,
        }
    }

    #[verifier::when_used_as_spec(spec_image)]
    pub fn image(&self) -> (r: ValueId)
        ensures
            r == self.spec_image(),
    {
        match self {
            Descriptor::SampledImage { image } => *image,
            Descriptor::CombinedImageSampler { image, .. } => *image,
        }
    }

    pub fn sampler(&self) -> (r: Option<u64>)
        ensures
            r == match *self {
                Descriptor::SampledImage { .. } => None,
                Descriptor::CombinedImageSampler { sampler, .. } => Some(sampler),
            },
    {
        match self {
            Descriptor::SampledImage { .. } => None,
            Descriptor::CombinedImageSampler { sampler, .. } => Some(*sampler),
        }
    }

    pub open spec fn spec_descriptor_type(self) -> i32 {
        match self {
            Descriptor::SampledImage { .. } => DESCRIPTOR_TYPE_SAMPLED_IMAGE,
            Descriptor::CombinedImageSampler { .. } => DESCRIPTOR_TYPE_COMBINED_IMAGE_SAMPLER,
        }
    }

    /// The Vulkan descriptor type this payload is written as.
    pub fn descriptor_type(&self) -> (r: i32)
        ensures
            r == self.spec_descriptor_type(),
    {
        match self {
            Descriptor::SampledImage { .. } => DESCRIPTOR_TYPE_SAMPLED_IMAGE,
            Descriptor::CombinedImageSampler { .. } => DESCRIPTOR_TYPE_COMBINED_IMAGE_SAMPLER,
        }
    }
}

/// How many workgroups a dispatch runs. Scales are held as the bit patterns of their floats.
#[derive(Debug, Clone, Copy, PartialEq, Eq, Hash, Structural)]
pub enum DispatchSize {
    Groups { x: ValueId, y: ValueId, z: ValueId },
    Invocations { x: ValueId, y: ValueId, z: ValueId },
    InvocationsPerPixel { image: ValueId, scale_x: u32, scale_y: u32, scale_z: u32 },
    InvocationsPerElement { buffer: ValueId, element_size: u64, scale: u32 },
    Indirect { buffer: ValueId, offset: u64 },
}

#[derive(Debug, Clone, PartialEq, Eq, Hash)]
pub enum IR {
    Type(Type),
    Constant(Constant),
    Variable { slot: u32, kind: VariableKind, name: ValueId },
    Array { ty: ValueId, elements: Vec<ValueId> },
    Index { array: ValueId, index: ValueId },
    ConstructBuffer {
        buffer: Buffer,
        size: ValueId,
        usage: u32,
        location: MemoryLocation,
        initial_access: ValueId,
        name: ValueId,
    },
    ConstructImage {
        image: Image,
        image_view: u64,
        view_type: i32,
        extent: ValueId,
        format: i32,
        samples: u32,
        base_level: ValueId,
        level_count: ValueId,
        base_layer: ValueId,
        layer_count: ValueId,
        usage: u32,
        initial_layout: i32,
        name: ValueId,
    },
    AcquireNextImage { swapchain: ValueId },
    SwapchainImage { swapchain: ValueId, acquire: ValueId, format: i32, samples: u32 },
    Acquire { resource: ValueId, access: ValueId },
    Release { resource: ValueId, access: ValueId, dst_domain: u32 },
    Clear { attachment: ValueId, color: ValueId },
    Blit { src: ValueId, dst: ValueId, filter: i32 },
    CopyBufferToImage { buffer: ValueId, image: ValueId, region: Option<BufferImageCopy> },
    BeginRendering { attachments: Vec<(ValueId, ValueId)>, render_area: ValueId, name: ValueId },
    BindPipeline { pass: ValueId, pipeline: PipelineId, bind_point: i32 },
    SetState { pass: ValueId, change: StateChange },
    BindVertexBuffers { pass: ValueId, first_binding: u32, buffers: Vec<ValueId>, offsets: Vec<u64> },
    BindIndexBuffer { pass: ValueId, buffer: ValueId, offset: u64, index_type: i32 },
    WriteDescriptor { pass: ValueId, set: u32, binding: u32, descriptor: Descriptor, access: ValueId },
    Draw {
        pass: ValueId,
        vertex_count: ValueId,
        instance_count: ValueId,
        first_vertex: ValueId,
        first_instance: ValueId,
        pipeline: PipelineId,
        state: PipelineState,
        dynamic: DynamicValues,
    },
    DrawIndexed {
        pass: ValueId,
        index_count: ValueId,
        instance_count: ValueId,
        first_index: ValueId,
        vertex_offset: ValueId,
        first_instance: ValueId,
        pipeline: PipelineId,
        state: PipelineState,
        dynamic: DynamicValues,
    },
    CallOpaque {
        pass: ValueId,
        body: ValueId,
        pipeline: PipelineId,
        state: PipelineState,
        dynamic: DynamicValues,
    },
    EndRendering { pass: ValueId },
    BeginCompute { attachments: Vec<(ValueId, ValueId)>, name: ValueId },
    Dispatch { pass: ValueId, size: DispatchSize, pipeline: PipelineId, push_constants: PushConstants },
    EndCompute { pass: ValueId },
    Label { label: LabelId },
    SelectionMerge { merge: LabelId },
    Branch { target: LabelId },
    BranchConditional { condition: ValueId, true_label: LabelId, false_label: LabelId },
    Return,
    Phi { incoming: Vec<(ValueId, LabelId)> },
    MemoryBarrier { src_access: ValueId, dst_access: ValueId },
    ImageBarrier {
        src_access: ValueId,
        dst_access: ValueId,
        old_layout: i32,
        new_layout: i32,
        value: ValueId,
    },
}

/// An instruction and the id of the value it defines.
pub type Instr = (ValueId, IR);

/// What an instruction is to the resource flowing through it.
#[derive(Debug, Clone, Copy, PartialEq, Eq, Hash, Structural)]
pub enum UnderlyingObject {
    /// It defines a resource of its own.
    Base,
    /// It passes the same resource on through this operand.
    Forwards(ValueId),
    /// It stands for an element of the array at this operand.
    Element(ValueId),
    NoResource,
}

pub open spec fn first_or_none(ids: Seq<ValueId>) -> UnderlyingObject {
    if ids.len() > 0 { UnderlyingObject::Forwards(ids[0]) } else { UnderlyingObject::NoResource }
}

pub open spec fn underlying_object_spec(ir: IR) -> UnderlyingObject {
    match ir {
        IR::ConstructImage { .. } | IR::ConstructBuffer { .. } | IR::SwapchainImage { .. } => UnderlyingObject::Base,
        IR::Array { elements, .. } => if elements@.len() > 0 {
            UnderlyingObject::Element(elements@[0])
        } else {
            UnderlyingObject::NoResource
        },
        IR::Index { array, .. } => UnderlyingObject::Element(array),
        IR::Clear { attachment, .. } => UnderlyingObject::Forwards(attachment),
        IR::Blit { dst, .. } => UnderlyingObject::Forwards(dst),
        IR::CopyBufferToImage { image, .. } => UnderlyingObject::Forwards(image),
        IR::Acquire { resource, .. } => UnderlyingObject::Forwards(resource),
        IR::Release { resource, .. } => UnderlyingObject::Forwards(resource),
        IR::BeginRendering { attachments, .. } => if attachments@.len() > 0 {
            UnderlyingObject::Forwards(attachments@[0].0)
        } else {
            UnderlyingObject::NoResource
        },
        IR::BeginCompute { attachments, .. } => if attachments@.len() > 0 {
            UnderlyingObject::Forwards(attachments@[0].0)
        } else {
            UnderlyingObject::NoResource
        },
        IR::BindPipeline { pass, .. } => UnderlyingObject::Forwards(pass),
        IR::SetState { pass, .. } => UnderlyingObject::Forwards(pass),
        IR::BindVertexBuffers { pass, .. } => UnderlyingObject::Forwards(pass),
        IR::BindIndexBuffer { pass, .. } => UnderlyingObject::Forwards(pass),
        IR::WriteDescriptor { pass, .. } => UnderlyingObject::Forwards(pass),
        IR::Draw { pass, .. } => UnderlyingObject::Forwards(pass),
        IR::DrawIndexed { pass, .. } => UnderlyingObject::Forwards(pass),
        IR::CallOpaque { pass, .. } => UnderlyingObject::Forwards(pass),
        IR::EndRendering { pass } => UnderlyingObject::Forwards(pass),
        IR::Dispatch { pass, .. } => UnderlyingObject::Forwards(pass),
        IR::EndCompute { pass } => UnderlyingObject::Forwards(pass),
        IR::Phi { incoming } => if incoming@.len() > 0 {
            UnderlyingObject::Forwards(incoming@[0].0)
        } else {
            UnderlyingObject::NoResource
        },
        _ => UnderlyingObject::NoResource,
    }
}

/// What an instruction is to the resource flowing through it: a definition, a pass-through of
/// one operand, an element of an array, or nothing a resource flows through.
pub fn underlying_object(ir: &IR) -> (r: UnderlyingObject)
    ensures
        r == underlying_object_spec(*ir),
{
    match ir {
        IR::ConstructImage { .. } | IR::ConstructBuffer { .. } | IR::SwapchainImage { .. } => UnderlyingObject::Base,
        IR::Array { elements, .. } => if elements.len() > 0 {
            UnderlyingObject::Element(elements[0])
        } else {
            UnderlyingObject::NoResource
        },
        IR::Index { array, .. } => UnderlyingObject::Element(*array),
        IR::Clear { attachment, .. } => UnderlyingObject::Forwards(*attachment),
        IR::Blit { dst, .. } => UnderlyingObject::Forwards(*dst),
        IR::CopyBufferToImage { image, .. } => UnderlyingObject::Forwards(*image),
        IR::Acquire { resource, .. } => UnderlyingObject::Forwards(*resource),
        IR::Release { resource, .. } => UnderlyingObject::Forwards(*resource),
        IR::BeginRendering { attachments, .. } => if attachments.len() > 0 {
            UnderlyingObject::Forwards(attachments[0].0)
        } else {
            UnderlyingObject::NoResource
        },
        IR::BeginCompute { attachments, .. } => if attachments.len() > 0 {
            UnderlyingObject::Forwards(attachments[0].0)
        } else {
            UnderlyingObject::NoResource
        },
        IR::BindPipeline { pass, .. } => UnderlyingObject::Forwards(*pass),
        IR::SetState { pass, .. } => UnderlyingObject::Forwards(*pass),
        IR::BindVertexBuffers { pass, .. } => UnderlyingObject::Forwards(*pass),
        IR::BindIndexBuffer { pass, .. } => UnderlyingObject::Forwards(*pass),
        IR::WriteDescriptor { pass, .. } => UnderlyingObject::Forwards(*pass),
        IR::Draw { pass, .. } => UnderlyingObject::Forwards(*pass),
        IR::DrawIndexed { pass, .. } => UnderlyingObject::Forwards(*pass),
        IR::CallOpaque { pass, .. } => UnderlyingObject::Forwards(*pass),
        IR::EndRendering { pass } => UnderlyingObject::Forwards(*pass),
        IR::Dispatch { pass, .. } => UnderlyingObject::Forwards(*pass),
        IR::EndCompute { pass } => UnderlyingObject::Forwards(*pass),
        IR::Phi { incoming } => if incoming.len() > 0 {
            UnderlyingObject::Forwards(incoming[0].0)
        } else {
            UnderlyingObject::NoResource
        },
        _ => UnderlyingObject::NoResource,
    }
}

/// The effects an instruction has, as bits of a set.
pub const EFFECT_READ: u32 = 1 << 0;
pub const EFFECT_WRITE: u32 = 1 << 1;
pub const EFFECT_SYNC: u32 = 1 << 2;
pub const EFFECT_COMMAND: u32 = 1 << 3;
pub const EFFECT_STATE: u32 = 1 << 4;
pub const EFFECT_READS_STATE: u32 = 1 << 5;
pub const EFFECT_DEFINES: u32 = 1 << 6;
pub const EFFECT_HOST: u32 = 1 << 7;
pub const EFFECT_EXTERNAL: u32 = 1 << 8;
pub const EFFECT_CONTROL: u32 = 1 << 9;
pub const EFFECT_TERMINATOR: u32 = 1 << 10;
pub const EFFECT_MEMORY: u32 = 3;
/// The effects that keep an instruction alive even when nothing uses its value.
pub const EFFECT_OBSERVABLE: u32 = 0x79e;

/// What an instruction does beyond defining its value: a set of the `EFFECT_*` bits.
#[derive(Debug, Clone, Copy, PartialEq, Eq, Hash, Structural)]
pub struct SideEffect(pub u32);

impl SideEffect {
    /// Reads the memory of a resource it names.
    pub fn reads(self) -> (r: bool)
        ensures
            r == (self.0 & EFFECT_READ == EFFECT_READ),
    {
        self.0 & EFFECT_READ == EFFECT_READ
    }

    /// Writes the memory of a resource it names.
    pub fn writes(self) -> (r: bool)
        ensures
            r == (self.0 & EFFECT_WRITE == EFFECT_WRITE),
    {
        self.0 & EFFECT_WRITE == EFFECT_WRITE
    }

    /// Has an effect that keeps the instruction alive with no use of its value.
    pub fn is_observable(self) -> (r: bool)
        ensures
            r == (self.0 & EFFECT_OBSERVABLE != 0),
    {
        self.0 & EFFECT_OBSERVABLE != 0
    }

    pub fn is_empty(self) -> (r: bool)
        ensures
            r == (self.0 == 0),
    {
        self.0 == 0
    }

    pub fn contains(self, bits: u32) -> (r: bool)
        ensures
            r == (self.0 & bits == bits),
    {
        self.0 & bits == bits
    }
}

pub open spec fn side_effects_spec(ir: IR) -> u32 {
    match ir {
        IR::Type(_) | IR::Constant(_) | IR::Variable { .. } | IR::Array { .. } | IR::Index { .. } => 0,
        IR::ConstructBuffer { .. } | IR::ConstructImage { .. } | IR::SwapchainImage { .. } => EFFECT_DEFINES,
        IR::AcquireNextImage { .. } => EFFECT_DEFINES | EFFECT_EXTERNAL,
        IR::Acquire { .. } => EFFECT_MEMORY | EFFECT_SYNC,
        IR::Release { .. } => EFFECT_MEMORY | EFFECT_SYNC | EFFECT_EXTERNAL,
        IR::Clear { .. } => EFFECT_WRITE | EFFECT_COMMAND,
        IR::Blit { .. } | IR::CopyBufferToImage { .. } => EFFECT_MEMORY | EFFECT_COMMAND,
        IR::BeginRendering { .. } => EFFECT_MEMORY | EFFECT_COMMAND | EFFECT_STATE,
        IR::BeginCompute { .. } => EFFECT_MEMORY | EFFECT_SYNC | EFFECT_COMMAND | EFFECT_STATE,
        IR::EndRendering { .. } | IR::EndCompute { .. } => EFFECT_COMMAND,
        IR::BindPipeline { .. } | IR::SetState { .. } => EFFECT_STATE,
        IR::BindVertexBuffers { .. } | IR::BindIndexBuffer { .. } => EFFECT_READ | EFFECT_STATE | EFFECT_COMMAND,
        IR::WriteDescriptor { .. } => EFFECT_READ | EFFECT_SYNC | EFFECT_STATE,
        IR::Draw { .. } | IR::DrawIndexed { .. } => EFFECT_COMMAND | EFFECT_READS_STATE,
        IR::CallOpaque { .. } => EFFECT_COMMAND | EFFECT_READS_STATE | EFFECT_HOST,
        IR::Dispatch { size, .. } => match size {
            DispatchSize::Indirect { .. } => EFFECT_COMMAND | EFFECT_READS_STATE | EFFECT_READ | EFFECT_SYNC,
            _ => EFFECT_COMMAND | EFFECT_READS_STATE,
        },
        IR::Label { .. } | IR::SelectionMerge { .. } | IR::Phi { .. } => EFFECT_CONTROL,
        IR::Branch { .. } | IR::BranchConditional { .. } | IR::Return => EFFECT_CONTROL | EFFECT_TERMINATOR,
        IR::MemoryBarrier { .. } | IR::ImageBarrier { .. } => EFFECT_SYNC | EFFECT_COMMAND,
    }
}

pub open spec fn is_terminator_spec(ir: IR) -> bool {
    ir is Branch || ir is BranchConditional || ir is Return
}

pub open spec fn is_observable_spec(ir: IR) -> bool {
    side_effects_spec(ir) & EFFECT_OBSERVABLE != 0
}

impl IR {
    /// The effects of this instruction.
    pub fn side_effects(&self) -> (r: SideEffect)
        ensures
            r.0 == side_effects_spec(*self),
    {
        let bits = match self {
            IR::Type(_) | IR::Constant(_) | IR::Variable { .. } | IR::Array { .. } | IR::Index { .. } => 0,
            IR::ConstructBuffer { .. } | IR::ConstructImage { .. } | IR::SwapchainImage { .. } => EFFECT_DEFINES,
            IR::AcquireNextImage { .. } => EFFECT_DEFINES | EFFECT_EXTERNAL,
            IR::Acquire { .. } => EFFECT_MEMORY | EFFECT_SYNC,
            IR::Release { .. } => EFFECT_MEMORY | EFFECT_SYNC | EFFECT_EXTERNAL,
            IR::Clear { .. } => EFFECT_WRITE | EFFECT_COMMAND,
            IR::Blit { .. } | IR::CopyBufferToImage { .. } => EFFECT_MEMORY | EFFECT_COMMAND,
            IR::BeginRendering { .. } => EFFECT_MEMORY | EFFECT_COMMAND | EFFECT_STATE,
            IR::BeginCompute { .. } => EFFECT_MEMORY | EFFECT_SYNC | EFFECT_COMMAND | EFFECT_STATE,
            IR::EndRendering { .. } | IR::EndCompute { .. } => EFFECT_COMMAND,
            IR::BindPipeline { .. } | IR::SetState { .. } => EFFECT_STATE,
            IR::BindVertexBuffers { .. } | IR::BindIndexBuffer { .. } => EFFECT_READ | EFFECT_STATE | EFFECT_COMMAND,
            IR::WriteDescriptor { .. } => EFFECT_READ | EFFECT_SYNC | EFFECT_STATE,
            IR::Draw { .. } | IR::DrawIndexed { .. } => EFFECT_COMMAND | EFFECT_READS_STATE,
            IR::CallOpaque { .. } => EFFECT_COMMAND | EFFECT_READS_STATE | EFFECT_HOST,
            IR::Dispatch { size, .. } => match size {
                DispatchSize::Indirect { .. } => EFFECT_COMMAND | EFFECT_READS_STATE | EFFECT_READ | EFFECT_SYNC,
                _ => EFFECT_COMMAND | EFFECT_READS_STATE,
            },
            IR::Label { .. } | IR::SelectionMerge { .. } | IR::Phi { .. } => EFFECT_CONTROL,
            IR::Branch { .. } | IR::BranchConditional { .. } | IR::Return => EFFECT_CONTROL | EFFECT_TERMINATOR,
            IR::MemoryBarrier { .. } | IR::ImageBarrier { .. } => EFFECT_SYNC | EFFECT_COMMAND,
        };
        SideEffect(bits)
    }

    /// No effect at all: the instruction is its value and nothing more.
    pub fn is_pure(&self) -> (r: bool)
        ensures
            r == (side_effects_spec(*self) == 0),
    {
        self.side_effects().is_empty()
    }

    /// Nothing observable, so dropping it when its value is unused changes nothing.
    pub fn is_removable_when_unused(&self) -> (r: bool)
        ensures
            r == !is_observable_spec(*self),
    {
        !self.side_effects().is_observable()
    }

    /// Ends a block.
    pub fn is_terminator(&self) -> (r: bool)
        ensures
            r == is_terminator_spec(*self),
    {
        matches!(self, IR::Branch { .. } | IR::BranchConditional { .. } | IR::Return)
    }

    pub fn opens_region(&self) -> (r: bool)
        ensures
            r == (*self is BeginRendering || *self is BeginCompute),
    {
        matches!(self, IR::BeginRendering { .. } | IR::BeginCompute { .. })
    }

    pub fn closes_region(&self) -> (r: bool)
        ensures
            r == (*self is EndRendering || *self is EndCompute),
    {
        matches!(self, IR::EndRendering { .. } | IR::EndCompute { .. })
    }
}

/// The id itself where it names a value, nothing where it is the invalid id.
pub open spec fn opt_id(id: ValueId) -> Seq<ValueId> {
    if id.valid() { seq![id] } else { seq![] }
}

/// Each pair's resource then its access, pair by pair.
pub open spec fn pair_ids(pairs: Seq<(ValueId, ValueId)>) -> Seq<ValueId>
    decreases pairs.len(),
{
    if pairs.len() == 0 {
        seq![]
    } else {
        pair_ids(pairs.drop_last()) + seq![pairs.last().0, pairs.last().1]
    }
}

pub open spec fn incoming_ids(incoming: Seq<(ValueId, LabelId)>) -> Seq<ValueId> {
    Seq::new(incoming.len(), |i: int| incoming[i].0)
}

pub open spec fn dispatch_operands(size: DispatchSize) -> Seq<ValueId> {
    match size {
        DispatchSize::Groups { x, y, z } => seq![x, y, z],
        DispatchSize::Invocations { x, y, z } => seq![x, y, z],
        DispatchSize::InvocationsPerPixel { image, .. } => seq![image],
        DispatchSize::InvocationsPerElement { buffer, .. } => seq![buffer],
        DispatchSize::Indirect { buffer, .. } => seq![buffer],
    }
}

/// Every value an instruction reads, in the order its fields give them; an invalid id that
/// stands for an absent name, size, extent, depth attachment or render area is not one.
pub open spec fn operands_spec(ir: IR) -> Seq<ValueId> {
    match ir {
        IR::Type(_) | IR::Constant(_) | IR::Label { .. } | IR::SelectionMerge { .. } | IR::Branch { .. }
        | IR::Return => seq![],
        IR::Variable { name, .. } => opt_id(name),
        IR::Array { ty, elements } => elements@ + seq![ty],
        IR::Index { array, index } => seq![array, index],
        IR::ConstructBuffer { size, initial_access, name, .. } => opt_id(size) + seq![initial_access] + opt_id(name),
        IR::ConstructImage { extent, base_level, level_count, base_layer, layer_count, name, .. } => opt_id(extent)
            + seq![base_level, level_count, base_layer, layer_count] + opt_id(name),
        IR::AcquireNextImage { swapchain } => seq![swapchain],
        IR::SwapchainImage { swapchain, acquire, .. } => seq![swapchain, acquire],
        IR::Acquire { resource, access } => seq![resource, access],
        IR::Release { resource, access, .. } => seq![resource, access],
        IR::Clear { attachment, color } => seq![attachment, color],
        IR::Blit { src, dst, .. } => seq![src, dst],
        IR::CopyBufferToImage { buffer, image, .. } => seq![buffer, image],
        IR::BeginRendering { attachments, render_area, name } => pair_ids(attachments@) + opt_id(render_area)
            + opt_id(name),
        IR::BeginCompute { attachments, name } => pair_ids(attachments@) + opt_id(name),
        IR::BindPipeline { pass, .. } => seq![pass],
        IR::EndRendering { pass } => seq![pass],
        IR::EndCompute { pass } => seq![pass],
        IR::SetState { pass, change } => match change {
            StateChange::PushConstantsFrom { source, .. } => seq![source, pass],
            StateChange::PushConstantAddress { buffer, .. } => seq![buffer, pass],
            _ => seq![pass],
        },
        IR::BindVertexBuffers { pass, buffers, .. } => buffers@ + seq![pass],
        IR::BindIndexBuffer { pass, buffer, .. } => seq![buffer, pass],
        IR::WriteDescriptor { pass, descriptor, access, .. } => seq![descriptor.spec_image(), pass, access],
        IR::Draw { pass, vertex_count, instance_count, first_vertex, first_instance, .. } => seq![
            pass,
            vertex_count,
            instance_count,
            first_vertex,
            first_instance,
        ],
        IR::DrawIndexed { pass, index_count, instance_count, first_index, vertex_offset, first_instance, .. } =>
            seq![pass, index_count, instance_count, first_index, vertex_offset, first_instance],
        IR::CallOpaque { pass, body, .. } => seq![pass, body],
        IR::Dispatch { pass, size, .. } => seq![pass] + dispatch_operands(size),
        IR::BranchConditional { condition, .. } => seq![condition],
        IR::Phi { incoming } => incoming_ids(incoming@),
        IR::MemoryBarrier { src_access, dst_access } => seq![src_access, dst_access],
        IR::ImageBarrier { src_access, dst_access, value, .. } => seq![src_access, dst_access, value],
    }
}

fn push_opt(out: &mut Vec<ValueId>, id: ValueId)
    ensures
        final(out)@ == old(out)@ + opt_id(id),
{
    if id.is_valid() {
        out.push(id);
    } else {
        assert(old(out)@ + opt_id(id) =~= old(out)@);
    }
}

fn push_ids(out: &mut Vec<ValueId>, ids: &Vec<ValueId>)
    ensures
        final(out)@ == old(out)@ + ids@,
{
    let mut i: usize = 0;
    while i < ids.len()
        invariant
            i <= ids@.len(),
            out@ == old(out)@ + ids@.subrange(0, i as int),
        decreases ids@.len() - i,
    {
        out.push(ids[i]);
        i = i + 1;
        assert(out@ =~= old(out)@ + ids@.subrange(0, i as int));
    }
    assert(ids@.subrange(0, ids@.len() as int) =~= ids@);
}

fn push_pairs(out: &mut Vec<ValueId>, pairs: &Vec<(ValueId, ValueId)>)
    ensures
        final(out)@ == old(out)@ + pair_ids(pairs@),
{
    let mut i: usize = 0;
    while i < pairs.len()
        invariant
            i <= pairs@.len(),
            out@ == old(out)@ + pair_ids(pairs@.subrange(0, i as int)),
        decreases pairs@.len() - i,
    {
        let (resource, access) = pairs[i];
        out.push(resource);
        out.push(access);
        i = i + 1;
        assert(pairs@.subrange(0, i as int).drop_last() =~= pairs@.subrange(0, i - 1));
        assert(out@ =~= old(out)@ + pair_ids(pairs@.subrange(0, i as int)));
    }
    assert(pairs@.subrange(0, pairs@.len() as int) =~= pairs@);
}

fn push_incoming(out: &mut Vec<ValueId>, incoming: &Vec<(ValueId, LabelId)>)
    ensures
        final(out)@ == old(out)@ + incoming_ids(incoming@),
{
    let mut i: usize = 0;
    while i < incoming.len()
        invariant
            i <= incoming@.len(),
            out@ == old(out)@ + incoming_ids(incoming@.subrange(0, i as int)),
        decreases incoming@.len() - i,
    {
        out.push(incoming[i].0);
        i = i + 1;
        assert(out@ =~= old(out)@ + incoming_ids(incoming@.subrange(0, i as int)));
    }
    assert(incoming@.subrange(0, incoming@.len() as int) =~= incoming@);
}

/// The access a resource effect is made with.
#[derive(Debug, Clone, Copy, PartialEq, Eq, Hash, Structural)]
pub enum SideEffectAccess {
    /// The instruction fixes the access.
    Fixed(Access),
    /// The access is whatever the access constant at this value holds.
    Operand(ValueId),
}

impl SideEffectAccess {
    pub fn fixed(self) -> (r: Option<Access>)
        ensures
            r == match self {
                SideEffectAccess::Fixed(access) => Some(access),
                SideEffectAccess::Operand(_) => None,
            },
    {
        match self {
            SideEffectAccess::Fixed(access) => Some(access),
            SideEffectAccess::Operand(_) => None,
        }
    }
}

/// One resource an instruction reaches, and how.
#[derive(Debug, Clone, Copy, PartialEq, Eq, Hash, Structural)]
pub struct ResourceSideEffect {
    pub resource: ValueId,
    pub access: SideEffectAccess,
}

pub open spec fn fixed_effect(resource: ValueId, bits: u32) -> ResourceSideEffect {
    ResourceSideEffect { resource, access: SideEffectAccess::Fixed(Access(bits)) }
}

pub open spec fn fixed_all(ids: Seq<ValueId>, bits: u32) -> Seq<ResourceSideEffect> {
    Seq::new(ids.len(), |i: int| fixed_effect(ids[i], bits))
}

pub open spec fn declared_effects(pairs: Seq<(ValueId, ValueId)>) -> Seq<ResourceSideEffect> {
    Seq::new(
        pairs.len(),
        |i: int| ResourceSideEffect { resource: pairs[i].0, access: SideEffectAccess::Operand(pairs[i].1) },
    )
}

/// What an instruction does to each resource it names, in the order the operands are given.
pub open spec fn resource_effects_spec(ir: IR) -> Seq<ResourceSideEffect> {
    match ir {
        IR::Acquire { resource, access } => seq![
            ResourceSideEffect { resource, access: SideEffectAccess::Operand(access) },
        ],
        IR::Release { resource, access, .. } => seq![
            ResourceSideEffect { resource, access: SideEffectAccess::Operand(access) },
        ],
        IR::Clear { attachment, .. } => seq![fixed_effect(attachment, ACCESS_CLEAR)],
        IR::Blit { src, dst, .. } => seq![fixed_effect(src, ACCESS_BLIT_READ), fixed_effect(dst, ACCESS_BLIT_WRITE)],
        IR::CopyBufferToImage { buffer, image, .. } => seq![
            fixed_effect(buffer, ACCESS_COPY_READ),
            fixed_effect(image, ACCESS_COPY_WRITE),
        ],
        IR::BeginRendering { attachments, .. } => declared_effects(attachments@),
        IR::BeginCompute { attachments, .. } => declared_effects(attachments@),
        IR::WriteDescriptor { descriptor, access, .. } => seq![
            ResourceSideEffect { resource: descriptor.spec_image(), access: SideEffectAccess::Operand(access) },
        ],
        IR::BindVertexBuffers { buffers, .. } => fixed_all(buffers@, ACCESS_ATTRIBUTE_READ),
        IR::BindIndexBuffer { buffer, .. } => seq![fixed_effect(buffer, ACCESS_INDEX_READ)],
        IR::Dispatch { size: DispatchSize::Indirect { buffer, .. }, .. } => seq![
            fixed_effect(buffer, ACCESS_INDIRECT_READ),
        ],
        _ => seq![],
    }
}

fn push_fixed(out: &mut Vec<ResourceSideEffect>, ids: &Vec<ValueId>, bits: u32)
    ensures
        final(out)@ == old(out)@ + fixed_all(ids@, bits),
{
    let mut i: usize = 0;
    while i < ids.len()
        invariant
            i <= ids@.len(),
            out@ == old(out)@ + fixed_all(ids@.subrange(0, i as int), bits),
        decreases ids@.len() - i,
    {
        out.push(ResourceSideEffect { resource: ids[i], access: SideEffectAccess::Fixed(Access(bits)) });
        i = i + 1;
        assert(out@ =~= old(out)@ + fixed_all(ids@.subrange(0, i as int), bits));
    }
    assert(ids@.subrange(0, ids@.len() as int) =~= ids@);
}

fn push_declared(out: &mut Vec<ResourceSideEffect>, pairs: &Vec<(ValueId, ValueId)>)
    ensures
        final(out)@ == old(out)@ + declared_effects(pairs@),
{
    let mut i: usize = 0;
    while i < pairs.len()
        invariant
            i <= pairs@.len(),
            out@ == old(out)@ + declared_effects(pairs@.subrange(0, i as int)),
        decreases pairs@.len() - i,
    {
        let (resource, access) = pairs[i];
        out.push(ResourceSideEffect { resource, access: SideEffectAccess::Operand(access) });
        i = i + 1;
        assert(out@ =~= old(out)@ + declared_effects(pairs@.subrange(0, i as int)));
    }
    assert(pairs@.subrange(0, pairs@.len() as int) =~= pairs@);
}

impl IR {
    /// Every value this instruction reads, in the order a visit of its fields meets them.
    pub fn visit_operands(&self) -> (r: Vec<ValueId>)
        ensures
            r@ == operands_spec(*self),
    {
        let mut out: Vec<ValueId> = Vec::new();
        match self {
            IR::Type(_) | IR::Constant(_) | IR::Label { .. } | IR::SelectionMerge { .. } | IR::Branch { .. }
            | IR::Return => {},
            IR::Variable { name, .. } => {
                push_opt(&mut out, *name);
            },
            IR::Array { ty, elements } => {
                push_ids(&mut out, elements);
                out.push(*ty);
            },
            IR::Index { array, index } => {
                out.push(*array);
                out.push(*index);
            },
            IR::ConstructBuffer { size, initial_access, name, .. } => {
                push_opt(&mut out, *size);
                out.push(*initial_access);
                push_opt(&mut out, *name);
            },
            IR::ConstructImage { extent, base_level, level_count, base_layer, layer_count, name, .. } => {
                push_opt(&mut out, *extent);
                out.push(*base_level);
                out.push(*level_count);
                out.push(*base_layer);
                out.push(*layer_count);
                push_opt(&mut out, *name);
                assert(out@ =~= opt_id(*extent) + seq![*base_level, *level_count, *base_layer, *layer_count]
                    + opt_id(*name));
            },
            IR::AcquireNextImage { swapchain } => out.push(*swapchain),
            IR::SwapchainImage { swapchain, acquire, .. } => {
                out.push(*swapchain);
                out.push(*acquire);
            },
            IR::Acquire { resource, access } => {
                out.push(*resource);
                out.push(*access);
            },
            IR::Release { resource, access, .. } => {
                out.push(*resource);
                out.push(*access);
            },
            IR::Clear { attachment, color } => {
                out.push(*attachment);
                out.push(*color);
            },
            IR::Blit { src, dst, .. } => {
                out.push(*src);
                out.push(*dst);
            },
            IR::CopyBufferToImage { buffer, image, .. } => {
                out.push(*buffer);
                out.push(*image);
            },
            IR::BeginRendering { attachments, render_area, name } => {
                push_pairs(&mut out, attachments);
                push_opt(&mut out, *render_area);
                push_opt(&mut out, *name);
            },
            IR::BeginCompute { attachments, name } => {
                push_pairs(&mut out, attachments);
                push_opt(&mut out, *name);
            },
            IR::BindPipeline { pass, .. } => out.push(*pass),
            IR::EndRendering { pass } => out.push(*pass),
            IR::EndCompute { pass } => out.push(*pass),
            IR::SetState { pass, change } => {
                match change {
                    StateChange::PushConstantsFrom { source, .. } => out.push(*source),
                    StateChange::PushConstantAddress { buffer, .. } => out.push(*buffer),
                    _ => {},
                }
                out.push(*pass);
            },
            IR::BindVertexBuffers { pass, buffers, .. } => {
                push_ids(&mut out, buffers);
                out.push(*pass);
            },
            IR::BindIndexBuffer { pass, buffer, .. } => {
                out.push(*buffer);
                out.push(*pass);
            },
            IR::WriteDescriptor { pass, descriptor, access, .. } => {
                out.push(descriptor.image());
                out.push(*pass);
                out.push(*access);
            },
            IR::Draw { pass, vertex_count, instance_count, first_vertex, first_instance, .. } => {
                out.push(*pass);
                out.push(*vertex_count);
                out.push(*instance_count);
                out.push(*first_vertex);
                out.push(*first_instance);
            },
            IR::DrawIndexed { pass, index_count, instance_count, first_index, vertex_offset, first_instance, .. } => {
                out.push(*pass);
                out.push(*index_count);
                out.push(*instance_count);
                out.push(*first_index);
                out.push(*vertex_offset);
                out.push(*first_instance);
            },
            IR::CallOpaque { pass, body, .. } => {
                out.push(*pass);
                out.push(*body);
            },
            IR::Dispatch { pass, size, .. } => {
                out.push(*pass);
                match size {
                    DispatchSize::Groups { x, y, z } | DispatchSize::Invocations { x, y, z } => {
                        out.push(*x);
                        out.push(*y);
                        out.push(*z);
                    },
                    DispatchSize::InvocationsPerPixel { image, .. } => out.push(*image),
                    DispatchSize::InvocationsPerElement { buffer, .. } => out.push(*buffer),
                    DispatchSize::Indirect { buffer, .. } => out.push(*buffer),
                }
            },
            IR::BranchConditional { condition, .. } => out.push(*condition),
            IR::Phi { incoming } => push_incoming(&mut out, incoming),
            IR::MemoryBarrier { src_access, dst_access } => {
                out.push(*src_access);
                out.push(*dst_access);
            },
            IR::ImageBarrier { src_access, dst_access, value, .. } => {
                out.push(*src_access);
                out.push(*dst_access);
                out.push(*value);
            },
        }
        assert(out@ =~= operands_spec(*self));
        out
    }

    /// What this instruction does to each resource it names, in the order the operands are given.
    pub fn visit_resource_side_effects(&self) -> (r: Vec<ResourceSideEffect>)
        ensures
            r@ == resource_effects_spec(*self),
    {
        let mut out: Vec<ResourceSideEffect> = Vec::new();
        match self {
            IR::Acquire { resource, access } => {
                out.push(ResourceSideEffect { resource: *resource, access: SideEffectAccess::Operand(*access) })
            },
            IR::Release { resource, access, .. } => {
                out.push(ResourceSideEffect { resource: *resource, access: SideEffectAccess::Operand(*access) })
            },
            IR::Clear { attachment, .. } => {
                out.push(ResourceSideEffect { resource: *attachment, access: SideEffectAccess::Fixed(Access(ACCESS_CLEAR)) })
            },
            IR::Blit { src, dst, .. } => {
                out.push(ResourceSideEffect { resource: *src, access: SideEffectAccess::Fixed(Access(ACCESS_BLIT_READ)) });
                out.push(ResourceSideEffect { resource: *dst, access: SideEffectAccess::Fixed(Access(ACCESS_BLIT_WRITE)) });
            },
            IR::CopyBufferToImage { buffer, image, .. } => {
                out.push(ResourceSideEffect { resource: *buffer, access: SideEffectAccess::Fixed(Access(ACCESS_COPY_READ)) });
                out.push(ResourceSideEffect { resource: *image, access: SideEffectAccess::Fixed(Access(ACCESS_COPY_WRITE)) });
            },
            IR::BeginRendering { attachments, .. } => push_declared(&mut out, attachments),
            IR::BeginCompute { attachments, .. } => push_declared(&mut out, attachments),
            IR::WriteDescriptor { descriptor, access, .. } => {
                out.push(ResourceSideEffect { resource: descriptor.image(), access: SideEffectAccess::Operand(*access) })
            },
            IR::BindVertexBuffers { buffers, .. } => push_fixed(&mut out, buffers, ACCESS_ATTRIBUTE_READ),
            IR::BindIndexBuffer { buffer, .. } => {
                out.push(ResourceSideEffect { resource: *buffer, access: SideEffectAccess::Fixed(Access(ACCESS_INDEX_READ)) })
            },
            IR::Dispatch { size: DispatchSize::Indirect { buffer, .. }, .. } => {
                out.push(ResourceSideEffect { resource: *buffer, access: SideEffectAccess::Fixed(Access(ACCESS_INDIRECT_READ)) })
            },
            _ => {},
        }
        assert(out@ =~= resource_effects_spec(*self));
        out
    }

    pub fn resource_effects(&self) -> (r: Vec<ResourceSideEffect>)
        ensures
            r@ == resource_effects_spec(*self),
    {
        self.visit_resource_side_effects()
    }
}

/// Two constants hold the same value: strings by their characters, anything else exactly.
pub open spec fn constant_eq(a: Constant, b: Constant) -> bool {
    match a {
        Constant::String(x) => b matches Constant::String(y) && x@ == y@,
        _ => a == b,
    }
}

/// Two state changes change the same state the same way.
pub open spec fn state_change_eq(a: StateChange, b: StateChange) -> bool {
    match a {
        StateChange::PushConstants { offset, data } => b matches StateChange::PushConstants { offset: o, data: d }
            && offset == o && data@ == d@,
        _ => a == b,
    }
}

/// The instructions that hold a vector, a string or state built of them.
pub open spec fn has_vec(ir: IR) -> bool {
    ir is Constant || ir is Array || ir is BeginRendering || ir is BeginCompute || ir is BindVertexBuffers
        || ir is Phi || ir is SetState || ir is Draw || ir is DrawIndexed || ir is CallOpaque || ir is Dispatch
}

/// `b` is a copy of `a`: exactly `a` where `a` holds no vector, and otherwise the same
/// instruction with the same contents.
pub open spec fn same_ir(a: IR, b: IR) -> bool {
    &&& !has_vec(a) ==> b == a
    &&& operands_spec(a) == operands_spec(b)
    &&& underlying_object_spec(a) == underlying_object_spec(b)
    &&& side_effects_spec(a) == side_effects_spec(b)
    &&& resource_effects_spec(a) == resource_effects_spec(b)
    &&& (a matches IR::Constant(x) ==> b matches IR::Constant(y) && constant_eq(x, y))
    &&& (a matches IR::Array { ty, elements } ==> b matches IR::Array { ty: t, elements: e } && ty == t
        && elements@ == e@)
    &&& (a matches IR::BeginRendering { attachments, render_area, name } ==> b matches IR::BeginRendering {
        attachments: x,
        render_area: r,
        name: n,
    } && attachments@ == x@ && render_area == r && name == n)
    &&& (a matches IR::BeginCompute { attachments, name } ==> b matches IR::BeginCompute { attachments: x, name: n }
        && attachments@ == x@ && name == n)
    &&& (a matches IR::BindVertexBuffers { pass, first_binding, buffers, offsets } ==> b matches IR::BindVertexBuffers {
        pass: p,
        first_binding: f,
        buffers: bs,
        offsets: o,
    } && pass == p && first_binding == f && buffers@ == bs@ && offsets@ == o@)
    &&& (a matches IR::Phi { incoming } ==> b matches IR::Phi { incoming: i } && incoming@ == i@)
    &&& (a matches IR::SetState { pass, change } ==> b matches IR::SetState { pass: p, change: c } && pass == p
        && state_change_eq(change, c))
    &&& (a matches IR::Draw { pass, vertex_count, instance_count, first_vertex, first_instance, pipeline, .. }
        ==> b matches IR::Draw {
        pass: p,
        vertex_count: v,
        instance_count: i,
        first_vertex: fv,
        first_instance: fi,
        pipeline: pl,
        ..
    } && pass == p && vertex_count == v && instance_count == i && first_vertex == fv && first_instance == fi
        && pipeline == pl)
    &&& (a matches IR::DrawIndexed { pass, pipeline, .. } ==> b matches IR::DrawIndexed { pass: p, pipeline: pl, .. }
        && pass == p && pipeline == pl)
    &&& (a matches IR::CallOpaque { pass, body, pipeline, .. } ==> b matches IR::CallOpaque {
        pass: p,
        body: bd,
        pipeline: pl,
        ..
    } && pass == p && body == bd && pipeline == pl)
    &&& (a matches IR::Dispatch { pass, size, pipeline, .. } ==> b matches IR::Dispatch {
        pass: p,
        size: sz,
        pipeline: pl,
        ..
    } && pass == p && size == sz && pipeline == pl)
}

pub fn copy_ids(ids: &Vec<ValueId>) -> (r: Vec<ValueId>)
    ensures
        r@ == ids@,
{
    let mut r: Vec<ValueId> = Vec::with_capacity(ids.len());
    push_ids(&mut r, ids);
    assert(r@ =~= ids@);
    r
}

fn copy_seq<T: Copy>(v: &Vec<T>) -> (r: Vec<T>)
    ensures
        r@ == v@,
{
    let mut r: Vec<T> = Vec::with_capacity(v.len());
    let mut i: usize = 0;
    while i < v.len()
        invariant
            i <= v@.len(),
            r@ == v@.subrange(0, i as int),
        decreases v@.len() - i,
    {
        r.push(v[i]);
        i = i + 1;
    }
    r
}

pub fn copy_string(s: &String) -> (r: String)
    ensures
        r@ == s@,
{
    s.clone()
}

impl Constant {
    /// A copy of this constant holding the same value.
    pub fn copy(&self) -> (r: Constant)
        ensures
            constant_eq(*self, r),
            !(*self is String) ==> r == *self,
    {
        match self {
            Constant::I32(v) => Constant::I32(*v),
            Constant::U32(v) => Constant::U32(*v),
            Constant::Size(v) => Constant::Size(*v),
            Constant::Extent2D(v) => Constant::Extent2D(*v),
            Constant::Extent3D(v) => Constant::Extent3D(*v),
            Constant::String(v) => Constant::String(copy_string(v)),
            Constant::Access(v) => Constant::Access(*v),
            Constant::ClearValue(v) => Constant::ClearValue(*v),
        }
    }

    /// Whether two constants hold the same value.
    pub fn same(&self, other: &Constant) -> (r: bool)
        ensures
            r == constant_eq(*self, *other),
    {
        match (self, other) {
            (Constant::I32(a), Constant::I32(b)) => *a == *b,
            (Constant::U32(a), Constant::U32(b)) => *a == *b,
            (Constant::Size(a), Constant::Size(b)) => *a == *b,
            (Constant::Extent2D(a), Constant::Extent2D(b)) => *a == *b,
            (Constant::Extent3D(a), Constant::Extent3D(b)) => *a == *b,
            (Constant::String(a), Constant::String(b)) => *a == *b,
            (Constant::Access(a), Constant::Access(b)) => *a == *b,
            (Constant::ClearValue(a), Constant::ClearValue(b)) => *a == *b,
            _ => false,
        }
    }
}

impl StateChange {
    /// A copy of this change that changes the same state the same way.
    pub fn copy(&self) -> (r: StateChange)
        ensures
            state_change_eq(*self, r),
    {
        match self {
            StateChange::PrimitiveTopology(v) => StateChange::PrimitiveTopology(*v),
            StateChange::Rasterization(v) => StateChange::Rasterization(*v),
            StateChange::DynamicState(v) => StateChange::DynamicState(*v),
            StateChange::Depth(v) => StateChange::Depth(*v),
            StateChange::Viewport { index, viewport } => StateChange::Viewport { index: *index, viewport: *viewport },
            StateChange::Scissor { index, rect } => StateChange::Scissor { index: *index, rect: *rect },
            StateChange::ColorBlend { index, blend } => StateChange::ColorBlend { index: *index, blend: *blend },
            StateChange::PushConstants { offset, data } => StateChange::PushConstants {
                offset: *offset,
                data: copy_seq(data),
            },
            StateChange::PushConstantsFrom { offset, size, source } => StateChange::PushConstantsFrom {
                offset: *offset,
                size: *size,
                source: *source,
            },
            StateChange::PushConstantAddress { offset, buffer } => StateChange::PushConstantAddress {
                offset: *offset,
                buffer: *buffer,
            },
        }
    }
}

impl IR {
    /// A copy of this instruction: the same instruction holding the same contents. The state a
    /// draw or dispatch was given is not carried over; it is what inference fills in.
    pub fn copy(&self) -> (r: IR)
        ensures
            same_ir(*self, r),
    {
        match self {
            IR::Type(t) => IR::Type(*t),
            IR::Constant(c) => IR::Constant(c.copy()),
            IR::Variable { slot, kind, name } => IR::Variable { slot: *slot, kind: *kind, name: *name },
            IR::Array { ty, elements } => IR::Array { ty: *ty, elements: copy_ids(elements) },
            IR::Index { array, index } => IR::Index { array: *array, index: *index },
            IR::ConstructBuffer { buffer, size, usage, location, initial_access, name } => IR::ConstructBuffer {
                buffer: *buffer,
                size: *size,
                usage: *usage,
                location: *location,
                initial_access: *initial_access,
                name: *name,
            },
            IR::ConstructImage {
                image,
                image_view,
                view_type,
                extent,
                format,
                samples,
                base_level,
                level_count,
                base_layer,
                layer_count,
                usage,
                initial_layout,
                name,
            } => IR::ConstructImage {
                image: *image,
                image_view: *image_view,
                view_type: *view_type,
                extent: *extent,
                format: *format,
                samples: *samples,
                base_level: *base_level,
                level_count: *level_count,
                base_layer: *base_layer,
                layer_count: *layer_count,
                usage: *usage,
                initial_layout: *initial_layout,
                name: *name,
            },
            IR::AcquireNextImage { swapchain } => IR::AcquireNextImage { swapchain: *swapchain },
            IR::SwapchainImage { swapchain, acquire, format, samples } => IR::SwapchainImage {
                swapchain: *swapchain,
                acquire: *acquire,
                format: *format,
                samples: *samples,
            },
            IR::Acquire { resource, access } => IR::Acquire { resource: *resource, access: *access },
            IR::Release { resource, access, dst_domain } => IR::Release {
                resource: *resource,
                access: *access,
                dst_domain: *dst_domain,
            },
            IR::Clear { attachment, color } => IR::Clear { attachment: *attachment, color: *color },
            IR::Blit { src, dst, filter } => IR::Blit { src: *src, dst: *dst, filter: *filter },
            IR::CopyBufferToImage { buffer, image, region } => IR::CopyBufferToImage {
                buffer: *buffer,
                image: *image,
                region: *region,
            },
            IR::BeginRendering { attachments, render_area, name } => IR::BeginRendering {
                attachments: copy_seq(attachments),
                render_area: *render_area,
                name: *name,
            },
            IR::BindPipeline { pass, pipeline, bind_point } => IR::BindPipeline {
                pass: *pass,
                pipeline: *pipeline,
                bind_point: *bind_point,
            },
            IR::SetState { pass, change } => IR::SetState { pass: *pass, change: change.copy() },
            IR::BindVertexBuffers { pass, first_binding, buffers, offsets } => IR::BindVertexBuffers {
                pass: *pass,
                first_binding: *first_binding,
                buffers: copy_ids(buffers),
                offsets: copy_seq(offsets),
            },
            IR::BindIndexBuffer { pass, buffer, offset, index_type } => IR::BindIndexBuffer {
                pass: *pass,
                buffer: *buffer,
                offset: *offset,
                index_type: *index_type,
            },
            IR::WriteDescriptor { pass, set, binding, descriptor, access } => IR::WriteDescriptor {
                pass: *pass,
                set: *set,
                binding: *binding,
                descriptor: *descriptor,
                access: *access,
            },
            IR::Draw { pass, vertex_count, instance_count, first_vertex, first_instance, pipeline, .. } => IR::Draw {
                pass: *pass,
                vertex_count: *vertex_count,
                instance_count: *instance_count,
                first_vertex: *first_vertex,
                first_instance: *first_instance,
                pipeline: *pipeline,
                state: PipelineState::initial(),
                dynamic: DynamicValues::empty(),
            },
            IR::DrawIndexed {
                pass,
                index_count,
                instance_count,
                first_index,
                vertex_offset,
                first_instance,
                pipeline,
                ..
            } => IR::DrawIndexed {
                pass: *pass,
                index_count: *index_count,
                instance_count: *instance_count,
                first_index: *first_index,
                vertex_offset: *vertex_offset,
                first_instance: *first_instance,
                pipeline: *pipeline,
                state: PipelineState::initial(),
                dynamic: DynamicValues::empty(),
            },
            IR::CallOpaque { pass, body, pipeline, .. } => IR::CallOpaque {
                pass: *pass,
                body: *body,
                pipeline: *pipeline,
                state: PipelineState::initial(),
                dynamic: DynamicValues::empty(),
            },
            IR::EndRendering { pass } => IR::EndRendering { pass: *pass },
            IR::BeginCompute { attachments, name } => IR::BeginCompute { attachments: copy_seq(attachments), name: *name },
            IR::Dispatch { pass, size, pipeline, push_constants } => IR::Dispatch {
                pass: *pass,
                size: *size,
                pipeline: *pipeline,
                push_constants: push_constants.copy(),
            },
            IR::EndCompute { pass } => IR::EndCompute { pass: *pass },
            IR::Label { label } => IR::Label { label: *label },
            IR::SelectionMerge { merge } => IR::SelectionMerge { merge: *merge },
            IR::Branch { target } => IR::Branch { target: *target },
            IR::BranchConditional { condition, true_label, false_label } => IR::BranchConditional {
                condition: *condition,
                true_label: *true_label,
                false_label: *false_label,
            },
            IR::Return => IR::Return,
            IR::Phi { incoming } => IR::Phi { incoming: copy_seq(incoming) },
            IR::MemoryBarrier { src_access, dst_access } => IR::MemoryBarrier {
                src_access: *src_access,
                dst_access: *dst_access,
            },
            IR::ImageBarrier { src_access, dst_access, old_layout, new_layout, value } => IR::ImageBarrier {
                src_access: *src_access,
                dst_access: *dst_access,
                old_layout: *old_layout,
                new_layout: *new_layout,
                value: *value,
            },
        }
    }
}

} // verus!
