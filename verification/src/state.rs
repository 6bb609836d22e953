use vstd::prelude::*;

use crate::ids::ValueId;

verus! {

/// Which pieces of state a pipeline leaves to be recorded with each draw.
pub const DYNAMIC_VIEWPORT: u32 = 1 << 0;
pub const DYNAMIC_SCISSOR: u32 = 1 << 1;

/// The bit pattern of the float 1.0, which a default depth range ends at and a default line
/// is as wide as.
pub const ONE_F32_BITS: u32 = 0x3f80_0000;

/// Vulkan's raw values the default pipeline state is made of.
pub const TOPOLOGY_TRIANGLE_LIST: i32 = 3;
pub const POLYGON_MODE_FILL: i32 = 0;
pub const CULL_MODE_NONE: u32 = 0;
pub const FRONT_FACE_COUNTER_CLOCKWISE: i32 = 0;
pub const BLEND_FACTOR_ZERO: i32 = 0;
pub const BLEND_FACTOR_ONE: i32 = 1;
pub const BLEND_FACTOR_SRC_ALPHA: i32 = 6;
pub const BLEND_FACTOR_ONE_MINUS_SRC_ALPHA: i32 = 7;
pub const BLEND_OP_ADD: i32 = 0;
pub const COLOR_COMPONENT_RGBA: u32 = 0xf;
pub const SAMPLE_COUNT_1: u32 = 1;
pub const COMPARE_OP_LESS: i32 = 1;

/// Which of viewport and scissor are recorded per draw: a set of the `DYNAMIC_*` bits.
#[derive(Debug, Clone, Copy, PartialEq, Eq, Hash, Structural)]
pub struct DynamicStateFlags(pub u32);

impl DynamicStateFlags {
    /// Viewport and scissor both, which is what a pass starts with.
    pub fn default_flags() -> (r: DynamicStateFlags)
        ensures
            r.0 == DYNAMIC_VIEWPORT | DYNAMIC_SCISSOR,
    {
        DynamicStateFlags(DYNAMIC_VIEWPORT | DYNAMIC_SCISSOR)
    }

    pub fn contains(self, bits: u32) -> (r: bool)
        ensures
            r == (self.0 & bits == bits),
    {
        self.0 & bits == bits
    }
}

/// A rectangle in pixels.
#[derive(Debug, Clone, Copy, Default, PartialEq, Eq, Hash, Structural)]
pub struct Rect {
    pub x: i32,
    pub y: i32,
    pub width: u32,
    pub height: u32,
}

/// A rectangle given against the render area of the pass it is used in. A relative one holds
/// the bit patterns of the fractions of the area it starts at and spans.
#[derive(Debug, Clone, Copy, PartialEq, Eq, Hash, Structural)]
pub enum Rect2D {
    Framebuffer,
    Absolute(Rect),
    Relative { x: u32, y: u32, width: u32, height: u32 },
}

impl Rect2D {
    pub fn framebuffer() -> (r: Rect2D)
        ensures
            r == Rect2D::Framebuffer,
    {
        Rect2D::Framebuffer
    }

    pub fn absolute(x: i32, y: i32, width: u32, height: u32) -> (r: Rect2D)
        ensures
            r == Rect2D::Absolute(Rect { x, y, width, height }),
    {
        Rect2D::Absolute(Rect { x, y, width, height })
    }
}

/// A viewport: a rectangle and the bit patterns of the depth range it maps to.
#[derive(Debug, Clone, Copy, PartialEq, Eq, Hash, Structural)]
pub struct Viewport {
    pub rect: Rect2D,
    pub min_depth: u32,
    pub max_depth: u32,
}

impl Viewport {
    pub open spec fn spec_default() -> Viewport {
        Viewport { rect: Rect2D::Framebuffer, min_depth: 0, max_depth: ONE_F32_BITS }
    }

    /// The whole render area over the depth range 0..1.
    pub fn framebuffer() -> (r: Viewport)
        ensures
            r == Viewport::spec_default(),
    {
        Viewport { rect: Rect2D::Framebuffer, min_depth: 0, max_depth: ONE_F32_BITS }
    }

    /// A rectangle over the depth range 0..1.
    pub fn from_rect(rect: Rect2D) -> (r: Viewport)
        ensures
            r == (Viewport { rect, min_depth: 0, max_depth: ONE_F32_BITS }),
    {
        Viewport { rect, min_depth: 0, max_depth: ONE_F32_BITS }
    }
}

/// How primitives are rasterized; the line width is held as its bit pattern.
#[derive(Debug, Clone, Copy, PartialEq, Eq, Hash, Structural)]
pub struct RasterizationState {
    pub polygon_mode: i32,
    pub cull_mode: u32,
    pub front_face: i32,
    pub line_width: u32,
    pub depth_clamp_enable: bool,
    pub rasterizer_discard_enable: bool,
}

impl RasterizationState {
    pub open spec fn spec_default() -> RasterizationState {
        RasterizationState {
            polygon_mode: POLYGON_MODE_FILL,
            cull_mode: CULL_MODE_NONE,
            front_face: FRONT_FACE_COUNTER_CLOCKWISE,
            line_width: ONE_F32_BITS,
            depth_clamp_enable: false,
            rasterizer_discard_enable: false,
        }
    }

    /// Filled, unculled, counter-clockwise, one pixel wide lines.
    pub fn default_state() -> (r: RasterizationState)
        ensures
            r == RasterizationState::spec_default(),
    {
        RasterizationState {
            polygon_mode: POLYGON_MODE_FILL,
            cull_mode: CULL_MODE_NONE,
            front_face: FRONT_FACE_COUNTER_CLOCKWISE,
            line_width: ONE_F32_BITS,
            depth_clamp_enable: false,
            rasterizer_discard_enable: false,
        }
    }
}

/// How the depth buffer is tested and written.
#[derive(Debug, Clone, Copy, PartialEq, Eq, Hash, Structural)]
pub struct DepthState {
    pub test_enable: bool,
    pub write_enable: bool,
    pub compare_op: i32,
}

impl DepthState {
    /// Fragments nearer than what the depth buffer holds pass, and write their depth.
    pub fn less() -> (r: DepthState)
        ensures
            r == (DepthState { test_enable: true, write_enable: true, compare_op: COMPARE_OP_LESS }),
    {
        DepthState { test_enable: true, write_enable: true, compare_op: COMPARE_OP_LESS }
    }

    /// No depth test and no depth write.
    pub fn off() -> (r: DepthState)
        ensures
            r == (DepthState { test_enable: false, write_enable: false, compare_op: COMPARE_OP_LESS }),
    {
        DepthState { test_enable: false, write_enable: false, compare_op: COMPARE_OP_LESS }
    }
}

#[derive(Debug, Clone, Copy, PartialEq, Eq, Hash, Structural)]
pub struct ColorBlendAttachmentState {
    pub blend_enable: bool,
    pub src_color_blend_factor: i32,
    pub dst_color_blend_factor: i32,
    pub color_blend_op: i32,
    pub src_alpha_blend_factor: i32,
    pub dst_alpha_blend_factor: i32,
    pub alpha_blend_op: i32,
    pub color_write_mask: u32,
}

#[derive(Debug, Clone, Copy, PartialEq, Eq, Hash, Structural)]
pub enum BlendPreset {
    Off,
    AlphaBlend,
    PremultipliedAlphaBlend,
    Additive,
}

/// The blend state a preset stands for.
pub open spec fn preset_state(preset: BlendPreset) -> ColorBlendAttachmentState {
    let base = ColorBlendAttachmentState {
        blend_enable: preset != BlendPreset::Off,
        src_color_blend_factor: BLEND_FACTOR_ONE,
        dst_color_blend_factor: BLEND_FACTOR_ZERO,
        color_blend_op: BLEND_OP_ADD,
        src_alpha_blend_factor: BLEND_FACTOR_ONE,
        dst_alpha_blend_factor: BLEND_FACTOR_ZERO,
        alpha_blend_op: BLEND_OP_ADD,
        color_write_mask: COLOR_COMPONENT_RGBA,
    };
    match preset {
        BlendPreset::Off => base,
        BlendPreset::AlphaBlend => ColorBlendAttachmentState {
            src_color_blend_factor: BLEND_FACTOR_SRC_ALPHA,
            dst_color_blend_factor: BLEND_FACTOR_ONE_MINUS_SRC_ALPHA,
            src_alpha_blend_factor: BLEND_FACTOR_ONE,
            dst_alpha_blend_factor: BLEND_FACTOR_ONE_MINUS_SRC_ALPHA,
            ..base
        },
        BlendPreset::PremultipliedAlphaBlend => ColorBlendAttachmentState {
            src_color_blend_factor: BLEND_FACTOR_ONE,
            dst_color_blend_factor: BLEND_FACTOR_ONE_MINUS_SRC_ALPHA,
            src_alpha_blend_factor: BLEND_FACTOR_ONE,
            dst_alpha_blend_factor: BLEND_FACTOR_ONE_MINUS_SRC_ALPHA,
            ..base
        },
        BlendPreset::Additive => ColorBlendAttachmentState {
            dst_color_blend_factor: BLEND_FACTOR_ONE,
            dst_alpha_blend_factor: BLEND_FACTOR_ONE,
            ..base
        },
    }
}

impl BlendPreset {
    /// The blend state this preset stands for.
    pub fn state(self) -> (r: ColorBlendAttachmentState)
        ensures
            r == preset_state(self),
    {
        let base = ColorBlendAttachmentState {
            blend_enable: !matches!(self, BlendPreset::Off),
            src_color_blend_factor: BLEND_FACTOR_ONE,
            dst_color_blend_factor: BLEND_FACTOR_ZERO,
            color_blend_op: BLEND_OP_ADD,
            src_alpha_blend_factor: BLEND_FACTOR_ONE,
            dst_alpha_blend_factor: BLEND_FACTOR_ZERO,
            alpha_blend_op: BLEND_OP_ADD,
            color_write_mask: COLOR_COMPONENT_RGBA,
        };
        match self {
            BlendPreset::Off => base,
            BlendPreset::AlphaBlend => ColorBlendAttachmentState {
                src_color_blend_factor: BLEND_FACTOR_SRC_ALPHA,
                dst_color_blend_factor: BLEND_FACTOR_ONE_MINUS_SRC_ALPHA,
                src_alpha_blend_factor: BLEND_FACTOR_ONE,
                dst_alpha_blend_factor: BLEND_FACTOR_ONE_MINUS_SRC_ALPHA,
                ..base
            },
            BlendPreset::PremultipliedAlphaBlend => ColorBlendAttachmentState {
                src_color_blend_factor: BLEND_FACTOR_ONE,
                dst_color_blend_factor: BLEND_FACTOR_ONE_MINUS_SRC_ALPHA,
                src_alpha_blend_factor: BLEND_FACTOR_ONE,
                dst_alpha_blend_factor: BLEND_FACTOR_ONE_MINUS_SRC_ALPHA,
                ..base
            },
            BlendPreset::Additive => ColorBlendAttachmentState {
                dst_color_blend_factor: BLEND_FACTOR_ONE,
                dst_alpha_blend_factor: BLEND_FACTOR_ONE,
                ..base
            },
        }
    }
}

/// A run of push-constant bytes, `data[i]` sitting at byte `offset + i` of the block.
#[derive(Debug, Clone, Default, PartialEq, Eq, Hash)]
pub struct PushConstants {
    pub offset: u32,
    pub data: Vec<u8>,
}

/// The byte at position `p` of the block after `bytes` are written at `offset` over `old`:
/// the written byte where the write lands, the old byte where only the old run lies, and zero
/// in a gap between the two.
pub open spec fn merged_byte(old_offset: int, old: Seq<u8>, offset: int, bytes: Seq<u8>, p: int) -> u8 {
    if offset <= p < offset + bytes.len() {
        bytes[p - offset]
    } else if old_offset <= p < old_offset + old.len() {
        old[p - old_offset]
    } else {
        0
    }
}

pub open spec fn min_int(a: int, b: int) -> int {
    if a <= b { a } else { b }
}

pub open spec fn max_int(a: int, b: int) -> int {
    if a >= b { a } else { b }
}

impl PushConstants {
    /// The run ends within the 32-bit range its offsets are measured in.
    pub open spec fn wf(&self) -> bool {
        self.offset + self.data@.len() <= u32::MAX
    }

    pub open spec fn spec_end(&self) -> int {
        self.offset + self.data@.len()
    }

    /// The byte this run holds at position `p` of the block, if it covers `p`.
    pub open spec fn byte_at(&self, p: int) -> Option<u8> {
        if self.offset <= p < self.spec_end() {
            Some(self.data@[p - self.offset])
        } else {
            None
        }
    }

    pub fn is_empty(&self) -> (r: bool)
        ensures
            r == (self.data@.len() == 0),
    {
        self.data.len() == 0
    }

    /// The length of the run, cut to 32 bits.
    pub fn size(&self) -> (r: u32)
        ensures
            r == self.data@.len() as u32,
            self.data@.len() <= u32::MAX ==> r == self.data@.len(),
    {
        self.data.len() as u32
    }

    /// Where the run ends.
    pub fn end(&self) -> (r: u32)
        requires
            self.offset + (self.data@.len() as u32) <= u32::MAX,
        ensures
            r == self.offset + (self.data@.len() as u32),
            self.wf() ==> r == self.spec_end(),
    {
        self.offset + self.size()
    }

    /// Writes `bytes` at `offset`. The first write starts the run where it lands; a later one
    /// overwrites the bytes it lands on and widens the run to cover both, with zeros in any gap.
    pub fn write(&mut self, offset: u32, bytes: &[u8])
        requires
            old(self).wf(),
            old(self).data@.len() != 0 ==> offset + bytes@.len() <= u32::MAX,
        ensures
            offset + bytes@.len() <= u32::MAX ==> final(self).wf(),
            old(self).data@.len() == 0 ==> final(self).offset == offset && final(self).data@
                == bytes@,
            old(self).data@.len() != 0 ==> final(self).offset == min_int(
                old(self).offset as int,
                offset as int,
            ) && final(self).spec_end() == max_int(
                old(self).spec_end(),
                offset + bytes@.len(),
            ),
            old(self).data@.len() != 0 ==> forall|i: int|
                0 <= i < final(self).data@.len() ==> #[trigger] final(self).data@[i] == merged_byte(
                    old(self).offset as int,
                    old(self).data@,
                    offset as int,
                    bytes@,
                    final(self).offset + i,
                ),
    {
        let len = bytes.len();
        if self.data.len() == 0 {
            self.offset = offset;
            self.data = copy_bytes(bytes);
            return;
        }
        let old_offset = self.offset;
        let old_len = self.data.len();
        let old_end = self.offset + old_len as u32;
        let new_end = offset + len as u32;
        let start = if old_offset <= offset { old_offset } else { offset };
        let end = if old_end >= new_end { old_end } else { new_end };
        let size = (end - start) as usize;

        let mut widened: Vec<u8> = Vec::with_capacity(size);
        let mut i: usize = 0;
        while i < size
            invariant
                i <= size,
                size == end - start,
                start <= old_offset,
                start <= offset,
                old_end <= end,
                new_end <= end,
                old_end == old_offset + old_len,
                new_end == offset + len,
                old_len == self.data@.len(),
                len == bytes@.len(),
                widened@.len() == i,
                forall|k: int|
                    0 <= k < i ==> #[trigger] widened@[k] == merged_byte(
                        old_offset as int,
                        self.data@,
                        offset as int,
                        bytes@,
                        start + k,
                    ),
            decreases size - i,
        {
            let p = start as usize + i;
            let b = if offset as usize <= p && p < new_end as usize {
                bytes[p - offset as usize]
            } else if old_offset as usize <= p && p < old_end as usize {
                self.data[p - old_offset as usize]
            } else {
                0u8
            };
            widened.push(b);
            i = i + 1;
        }
        self.offset = start;
        self.data = widened;
    }
}

fn copy_bytes(bytes: &[u8]) -> (r: Vec<u8>)
    ensures
        r@ == bytes@,
{
    let mut r: Vec<u8> = Vec::with_capacity(bytes.len());
    let mut i: usize = 0;
    while i < bytes.len()
        invariant
            i <= bytes@.len(),
            r@ == bytes@.subrange(0, i as int),
        decreases bytes@.len() - i,
    {
        r.push(bytes[i]);
        i = i + 1;
    }
    r
}

/// A source the push constants of a draw or dispatch take bytes from when the module runs.
#[derive(Debug, Clone, Copy, PartialEq, Eq, Hash, Structural)]
pub enum PushSource {
    /// `size` bytes of a bytes variable.
    Variable { offset: u32, size: u32, source: ValueId },
    /// The device address of a buffer.
    Address { offset: u32, buffer: ValueId },
}

/// Some source pushes a variable's bytes.
pub open spec fn pushes_variable(sources: Seq<PushSource>) -> bool {
    exists|k: int| 0 <= k < sources.len() && (#[trigger] sources[k]) is Variable
}

/// The sources that push device addresses, in order.
pub open spec fn addresses_only(sources: Seq<PushSource>) -> Seq<PushSource> {
    sources.filter(|s: PushSource| s is Address)
}

fn has_variable(sources: &Vec<PushSource>) -> (r: bool)
    ensures
        r == pushes_variable(sources@),
{
    let mut i: usize = 0;
    while i < sources.len()
        invariant
            i <= sources@.len(),
            forall|k: int| 0 <= k < i ==> !((#[trigger] sources@[k]) is Variable),
        decreases sources@.len() - i,
    {
        if let PushSource::Variable { .. } = sources[i] {
            return true;
        }
        i = i + 1;
    }
    false
}

fn keep_addresses(sources: &Vec<PushSource>) -> (r: Vec<PushSource>)
    ensures
        r@ == addresses_only(sources@),
{
    let mut out: Vec<PushSource> = Vec::new();
    let mut i: usize = 0;
    while i < sources.len()
        invariant
            i <= sources@.len(),
            out@ == sources@.subrange(0, i as int).filter(|s: PushSource| s is Address),
        decreases sources@.len() - i,
    {
        let source = sources[i];
        proof {
            reveal(Seq::filter);
            assert(sources@.subrange(0, i + 1).drop_last() =~= sources@.subrange(0, i as int));
        }
        if let PushSource::Address { .. } = source {
            out.push(source);
        }
        i = i + 1;
    }
    proof {
        assert(sources@.subrange(0, sources@.len() as int) =~= sources@);
    }
    out
}

#[derive(Debug, Clone, PartialEq, Eq, Hash)]
pub enum StateChange {
    PrimitiveTopology(i32),
    Rasterization(RasterizationState),
    DynamicState(DynamicStateFlags),
    Depth(DepthState),
    Viewport { index: u32, viewport: Viewport },
    Scissor { index: u32, rect: Rect2D },
    ColorBlend { index: Option<u32>, blend: ColorBlendAttachmentState },
    PushConstants { offset: u32, data: Vec<u8> },
    PushConstantsFrom { offset: u32, size: u32, source: ValueId },
    PushConstantAddress { offset: u32, buffer: ValueId },
}

/// The attachments a rendering region draws into.
#[derive(Debug, Clone, PartialEq, Eq, Hash)]
pub struct RenderingState {
    pub color_formats: Vec<i32>,
    pub depth_format: Option<i32>,
    pub samples: u32,
}

impl RenderingState {
    /// No attachments, one sample.
    pub fn empty() -> (r: RenderingState)
        ensures
            r.color_formats@.len() == 0,
            r.depth_format is None,
            r.samples == SAMPLE_COUNT_1,
    {
        RenderingState { color_formats: Vec::new(), depth_format: None, samples: SAMPLE_COUNT_1 }
    }
}

/// The state in force at a point of a pass, as the state changes recorded so far left it.
#[derive(Debug, Clone, PartialEq, Eq, Hash)]
pub struct PassState {
    pub rendering: RenderingState,
    pub topology: i32,
    pub rasterization: RasterizationState,
    pub depth: DepthState,
    pub blend: Vec<ColorBlendAttachmentState>,
    pub viewports: Vec<Viewport>,
    pub scissors: Vec<Rect2D>,
    pub dynamic: DynamicStateFlags,
    pub push_constants: PushConstants,
    pub push_sources: Vec<PushSource>,
}

/// `slots` with `value` at `index`, grown with `fill` up to it where it is too short.
pub open spec fn set_slot<T>(slots: Seq<T>, index: int, value: T, fill: T) -> Seq<T> {
    if index < slots.len() {
        slots.update(index, value)
    } else {
        slots + Seq::new((index - slots.len()) as nat, |i: int| fill) + seq![value]
    }
}

fn put_slot<T: Copy>(slots: &mut Vec<T>, index: u32, value: T, fill: T)
    ensures
        final(slots)@ == set_slot(old(slots)@, index as int, value, fill),
{
    let index = index as usize;
    if index < slots.len() {
        slots.set(index, value);
        return;
    }
    let ghost start = slots@;
    while slots.len() < index
        invariant
            start.len() <= slots@.len() <= index,
            slots@ == start + Seq::new((slots@.len() - start.len()) as nat, |i: int| fill),
        decreases index - slots@.len(),
    {
        slots.push(fill);
        assert(slots@ =~= start + Seq::new((slots@.len() - start.len()) as nat, |i: int| fill));
    }
    slots.push(value);
    assert(slots@ =~= start + Seq::new((index - start.len()) as nat, |i: int| fill) + seq![value]);
}

/// What a broadcast blend leaves: the one blend where there was none, every blend otherwise.
pub open spec fn broadcast_blend(
    blend: Seq<ColorBlendAttachmentState>,
    value: ColorBlendAttachmentState,
) -> Seq<ColorBlendAttachmentState> {
    if blend.len() == 0 {
        seq![value]
    } else {
        Seq::new(blend.len(), |i: int| value)
    }
}

fn broadcast_into(blend: &mut Vec<ColorBlendAttachmentState>, value: ColorBlendAttachmentState)
    ensures
        final(blend)@ == broadcast_blend(old(blend)@, value),
{
    if blend.len() == 0 {
        blend.push(value);
        assert(blend@ =~= seq![value]);
    } else {
        let n = blend.len();
        let mut i: usize = 0;
        while i < n
            invariant
                i <= n,
                blend@.len() == n,
                forall|k: int| 0 <= k < i ==> blend@[k] == value,
            decreases n - i,
        {
            blend.set(i, value);
            i = i + 1;
        }
        assert(blend@ =~= Seq::new(n as nat, |i: int| value));
    }
}

impl PassState {
    /// A compute pass's state, and the base a rendering pass starts from: triangles, default
    /// rasterization, no depth, one framebuffer viewport and scissor, both dynamic.
    pub fn initial() -> (r: PassState)
        ensures
            r.rendering.color_formats@.len() == 0,
            r.rendering.depth_format is None,
            r.rendering.samples == SAMPLE_COUNT_1,
            r.topology == TOPOLOGY_TRIANGLE_LIST,
            r.rasterization == RasterizationState::spec_default(),
            r.depth == (DepthState { test_enable: false, write_enable: false, compare_op: COMPARE_OP_LESS }),
            r.blend@.len() == 0,
            r.viewports@ == seq![Viewport::spec_default()],
            r.scissors@ == seq![Rect2D::Framebuffer],
            r.dynamic.0 == DYNAMIC_VIEWPORT | DYNAMIC_SCISSOR,
            r.push_constants.offset == 0,
            r.push_constants.data@.len() == 0,
            r.push_sources@.len() == 0,
    {
        let mut viewports = Vec::new();
        viewports.push(Viewport::framebuffer());
        let mut scissors = Vec::new();
        scissors.push(Rect2D::Framebuffer);
        PassState {
            rendering: RenderingState::empty(),
            topology: TOPOLOGY_TRIANGLE_LIST,
            rasterization: RasterizationState::default_state(),
            depth: DepthState::off(),
            blend: Vec::new(),
            viewports,
            scissors,
            dynamic: DynamicStateFlags::default_flags(),
            push_constants: PushConstants { offset: 0, data: Vec::new() },
            push_sources: Vec::new(),
        }
    }

    /// The state a rendering region opens with: one default blend per color attachment.
    pub fn for_rendering(rendering: RenderingState) -> (r: PassState)
        ensures
            r.rendering == rendering,
            r.blend@ == Seq::new(
                rendering.color_formats@.len(),
                |i: int| preset_state(BlendPreset::Off),
            ),
            r.topology == TOPOLOGY_TRIANGLE_LIST,
            r.rasterization == RasterizationState::spec_default(),
            r.depth == (DepthState { test_enable: false, write_enable: false, compare_op: COMPARE_OP_LESS }),
            r.viewports@ == seq![Viewport::spec_default()],
            r.scissors@ == seq![Rect2D::Framebuffer],
            r.dynamic.0 == DYNAMIC_VIEWPORT | DYNAMIC_SCISSOR,
            r.push_constants.data@.len() == 0,
    {
        let off = BlendPreset::Off.state();
        let n = rendering.color_formats.len();
        let mut blend: Vec<ColorBlendAttachmentState> = Vec::with_capacity(n);
        let mut i: usize = 0;
        while i < n
            invariant
                i <= n,
                off == preset_state(BlendPreset::Off),
                blend@ == Seq::new(i as nat, |k: int| preset_state(BlendPreset::Off)),
            decreases n - i,
        {
            blend.push(off);
            i = i + 1;
            assert(blend@ =~= Seq::new(i as nat, |k: int| preset_state(BlendPreset::Off)));
        }
        let mut state = PassState::initial();
        state.rendering = rendering;
        state.blend = blend;
        state
    }

    /// Applies one state change: it replaces the piece of state it names, grows a viewport,
    /// scissor or blend list up to the index it sets, and merges pushed bytes into the run.
    pub fn apply(&mut self, change: StateChange)
        requires
            old(self).push_constants.wf(),
            change matches StateChange::PushConstants { offset, data } ==> offset + data@.len()
                <= u32::MAX,
        ensures
            final(self).push_constants.wf(),
            final(self).rendering == old(self).rendering,
            !(change is PrimitiveTopology) ==> final(self).topology == old(self).topology,
            !(change is Rasterization) ==> final(self).rasterization == old(self).rasterization,
            !(change is DynamicState) ==> final(self).dynamic == old(self).dynamic,
            !(change is Depth) ==> final(self).depth == old(self).depth,
            !(change is Viewport) ==> final(self).viewports@ == old(self).viewports@,
            !(change is Scissor) ==> final(self).scissors@ == old(self).scissors@,
            !(change is ColorBlend) ==> final(self).blend@ == old(self).blend@,
            !(change is PushConstants) && !(change is PushConstantsFrom) ==> final(self).push_constants.offset
                == old(self).push_constants.offset && final(self).push_constants.data@ == old(
                self,
            ).push_constants.data@,
            !(change is PushConstants) && !(change is PushConstantsFrom) && !(change is PushConstantAddress)
                ==> final(self).push_sources@ == old(self).push_sources@,
            change matches StateChange::PushConstantsFrom { offset, .. } ==> final(self).push_constants.offset == offset,
            match change {
                StateChange::PrimitiveTopology(t) => final(self).topology == t && final(self).rasterization
                    == old(self).rasterization,
                StateChange::Rasterization(r) => final(self).rasterization == r && final(self).topology
                    == old(self).topology,
                StateChange::DynamicState(d) => final(self).dynamic == d,
                StateChange::Depth(d) => final(self).depth == d,
                StateChange::Viewport { index, viewport } => final(self).viewports@ == set_slot(
                    old(self).viewports@,
                    index as int,
                    viewport,
                    Viewport::spec_default(),
                ),
                StateChange::Scissor { index, rect } => final(self).scissors@ == set_slot(
                    old(self).scissors@,
                    index as int,
                    rect,
                    Rect2D::Framebuffer,
                ),
                StateChange::ColorBlend { index: Some(index), blend } => final(self).blend@
                    == set_slot(old(self).blend@, index as int, blend, preset_state(BlendPreset::Off)),
                StateChange::ColorBlend { index: None, blend } => final(self).blend@
                    == broadcast_blend(old(self).blend@, blend),
                StateChange::PushConstants { offset, data } => if pushes_variable(old(self).push_sources@) {
                    &&& final(self).push_constants.offset == offset
                    &&& final(self).push_constants.data@ == data@
                    &&& final(self).push_sources@ == addresses_only(old(self).push_sources@)
                } else {
                    &&& final(self).push_sources@ == old(self).push_sources@
                    &&& old(self).push_constants.data@.len() == 0 ==> final(self).push_constants.offset
                        == offset && final(self).push_constants.data@ == data@
                    &&& old(self).push_constants.data@.len() != 0 ==> forall|i: int|
                        0 <= i < final(self).push_constants.data@.len()
                            ==> #[trigger] final(self).push_constants.data@[i] == merged_byte(
                            old(self).push_constants.offset as int,
                            old(self).push_constants.data@,
                            offset as int,
                            data@,
                            final(self).push_constants.offset + i,
                        )
                },
                StateChange::PushConstantsFrom { offset, size, source } => {
                    &&& final(self).push_sources@ == addresses_only(old(self).push_sources@).push(
                        PushSource::Variable { offset, size, source },
                    )
                    &&& final(self).push_constants.data@.len() == 0
                },
                StateChange::PushConstantAddress { offset, buffer } => final(self).push_sources@
                    == old(self).push_sources@.push(PushSource::Address { offset, buffer }),
            },
    {
        match change {
            StateChange::PrimitiveTopology(topology) => {
                self.topology = topology;
            },
            StateChange::Rasterization(rasterization) => {
                self.rasterization = rasterization;
            },
            StateChange::DynamicState(dynamic) => {
                self.dynamic = dynamic;
            },
            StateChange::Depth(depth) => {
                self.depth = depth;
            },
            StateChange::Viewport { index, viewport } => {
                put_slot(&mut self.viewports, index, viewport, Viewport::framebuffer())
            },
            StateChange::Scissor { index, rect } => {
                put_slot(&mut self.scissors, index, rect, Rect2D::Framebuffer)
            },
            StateChange::ColorBlend { index: Some(index), blend } => {
                put_slot(&mut self.blend, index, blend, BlendPreset::Off.state())
            },
            StateChange::ColorBlend { index: None, blend } => {
                broadcast_into(&mut self.blend, blend);
            },
            StateChange::PushConstants { offset, data } => {
                if has_variable(&self.push_sources) {
                    self.push_sources = keep_addresses(&self.push_sources);
                    self.push_constants = PushConstants { offset, data };
                } else {
                    self.push_constants.write(offset, data.as_slice())
                }
            },
            StateChange::PushConstantsFrom { offset, size, source } => {
                let mut sources = keep_addresses(&self.push_sources);
                sources.push(PushSource::Variable { offset, size, source });
                self.push_sources = sources;
                self.push_constants = PushConstants { offset, data: Vec::new() };
            },
            StateChange::PushConstantAddress { offset, buffer } => {
                self.push_sources.push(PushSource::Address { offset, buffer })
            },
        }
    }
}

/// The state a draw's pipeline is built with. Viewports and scissors that are not dynamic are
/// baked in, still given against `area`, the render area they resolve against.
#[derive(Debug, Clone, PartialEq, Eq, Hash)]
pub struct PipelineState {
    pub rendering: RenderingState,
    pub topology: i32,
    pub rasterization: RasterizationState,
    pub depth: DepthState,
    pub blend: Vec<ColorBlendAttachmentState>,
    pub viewport_count: u32,
    pub viewports: Vec<Viewport>,
    pub scissors: Vec<Rect2D>,
    pub area: Rect,
    pub dynamic: DynamicStateFlags,
}

/// The state a draw records rather than bakes: dynamic viewports and scissors, and the push
/// constants in force.
#[derive(Debug, Clone, PartialEq, Eq, Hash)]
pub struct DynamicValues {
    pub viewports: Vec<Viewport>,
    pub scissors: Vec<Rect2D>,
    pub push_constants: PushConstants,
    pub push_sources: Vec<PushSource>,
}

impl DynamicValues {
    pub fn empty() -> (r: DynamicValues)
        ensures
            r.viewports@.len() == 0,
            r.scissors@.len() == 0,
            r.push_constants.offset == 0,
            r.push_constants.data@.len() == 0,
            r.push_sources@.len() == 0,
    {
        DynamicValues {
            viewports: Vec::new(),
            scissors: Vec::new(),
            push_constants: PushConstants { offset: 0, data: Vec::new() },
            push_sources: Vec::new(),
        }
    }
}

/// `count` entries of `slots`, the default standing in past its end.
pub open spec fn padded<T>(slots: Seq<T>, count: int, default: T) -> Seq<T> {
    Seq::new(count as nat, |i: int| if i < slots.len() { slots[i] } else { default })
}

fn padded_exec<T: Copy>(slots: &Vec<T>, count: usize, default: T) -> (r: Vec<T>)
    ensures
        r@ == padded(slots@, count as int, default),
{
    let mut r: Vec<T> = Vec::with_capacity(count);
    let mut i: usize = 0;
    while i < count
        invariant
            i <= count,
            r@ == padded(slots@, i as int, default),
        decreases count - i,
    {
        let v = if i < slots.len() { slots[i] } else { default };
        r.push(v);
        i = i + 1;
        assert(r@ =~= padded(slots@, i as int, default));
    }
    r
}

fn copy_vec<T: Copy>(v: &Vec<T>) -> (r: Vec<T>)
    ensures
        r@ == v@,
{
    let mut r: Vec<T> = Vec::with_capacity(v.len());
    let mut i: usize = 0;
    while i < v.len()
        invariant
            i <= v@.len(),
            r@ == v@.subrange(0, i as int),
        decreases v@.len() - i,
    {
        r.push(v[i]);
        i = i + 1;
    }
    r
}

impl RenderingState {
    pub fn copy(&self) -> (r: RenderingState)
        ensures
            r.color_formats@ == self.color_formats@,
            r.depth_format == self.depth_format,
            r.samples == self.samples,
    {
        RenderingState {
            color_formats: copy_vec(&self.color_formats),
            depth_format: self.depth_format,
            samples: self.samples,
        }
    }
}

impl PushConstants {
    pub fn copy(&self) -> (r: PushConstants)
        ensures
            r.offset == self.offset,
            r.data@ == self.data@,
    {
        PushConstants { offset: self.offset, data: copy_vec(&self.data) }
    }
}

impl PassState {
    /// A copy of the state, field for field.
    pub fn copy(&self) -> (r: PassState)
        ensures
            r.rendering.color_formats@ == self.rendering.color_formats@,
            r.rendering.depth_format == self.rendering.depth_format,
            r.rendering.samples == self.rendering.samples,
            r.topology == self.topology,
            r.rasterization == self.rasterization,
            r.depth == self.depth,
            r.blend@ == self.blend@,
            r.viewports@ == self.viewports@,
            r.scissors@ == self.scissors@,
            r.dynamic == self.dynamic,
            r.push_constants.offset == self.push_constants.offset,
            r.push_constants.data@ == self.push_constants.data@,
            r.push_sources@ == self.push_sources@,
    {
        PassState {
            rendering: self.rendering.copy(),
            topology: self.topology,
            rasterization: self.rasterization,
            depth: self.depth,
            blend: copy_vec(&self.blend),
            viewports: copy_vec(&self.viewports),
            scissors: copy_vec(&self.scissors),
            dynamic: self.dynamic,
            push_constants: self.push_constants.copy(),
            push_sources: copy_vec(&self.push_sources),
        }
    }

    pub open spec fn viewport_count(&self) -> int {
        max_int(max_int(self.viewports@.len() as int, self.scissors@.len() as int), 1)
    }

    /// Splits the state into what the pipeline is built with and what each draw records: one
    /// blend per color attachment, as many viewports and scissors as the longer of the two lists
    /// (at least one), dynamic ones to the draw and static ones into the pipeline.
    pub fn resolve(&self, area: Rect) -> (r: (PipelineState, DynamicValues))
        requires
            self.viewports@.len() <= u32::MAX,
            self.scissors@.len() <= u32::MAX,
        ensures
            r.0.rendering.color_formats@ == self.rendering.color_formats@,
            r.0.rendering.depth_format == self.rendering.depth_format,
            r.0.rendering.samples == self.rendering.samples,
            r.0.topology == self.topology,
            r.0.rasterization == self.rasterization,
            r.0.depth == (if self.rendering.depth_format is Some {
                self.depth
            } else {
                DepthState { test_enable: false, write_enable: false, compare_op: COMPARE_OP_LESS }
            }),
            r.0.dynamic == self.dynamic,
            r.0.viewport_count == self.viewport_count(),
            r.0.blend@ == padded(
                self.blend@,
                self.rendering.color_formats@.len() as int,
                preset_state(BlendPreset::Off),
            ),
            self.dynamic.0 & DYNAMIC_VIEWPORT == DYNAMIC_VIEWPORT ==> r.0.viewports@.len() == 0
                && r.1.viewports@ == padded(self.viewports@, self.viewport_count(), Viewport::spec_default()),
            self.dynamic.0 & DYNAMIC_VIEWPORT != DYNAMIC_VIEWPORT ==> r.1.viewports@.len() == 0
                && r.0.viewports@ == padded(self.viewports@, self.viewport_count(), Viewport::spec_default()),
            self.dynamic.0 & DYNAMIC_SCISSOR == DYNAMIC_SCISSOR ==> r.0.scissors@.len() == 0
                && r.1.scissors@ == padded(self.scissors@, self.viewport_count(), Rect2D::Framebuffer),
            self.dynamic.0 & DYNAMIC_SCISSOR != DYNAMIC_SCISSOR ==> r.1.scissors@.len() == 0
                && r.0.scissors@ == padded(self.scissors@, self.viewport_count(), Rect2D::Framebuffer),
            r.0.area == (if self.dynamic.0 & (DYNAMIC_VIEWPORT | DYNAMIC_SCISSOR) == (DYNAMIC_VIEWPORT
                | DYNAMIC_SCISSOR) {
                Rect { x: 0, y: 0, width: 0, height: 0 }
            } else {
                area
            }),
            r.1.push_constants.offset == self.push_constants.offset,
            r.1.push_constants.data@ == self.push_constants.data@,
            r.1.push_sources@ == self.push_sources@,
    {
        let nv = self.viewports.len();
        let ns = self.scissors.len();
        let count = if nv >= ns { nv } else { ns };
        let count = if count >= 1 { count } else { 1 };
        let blend = padded_exec(&self.blend, self.rendering.color_formats.len(), BlendPreset::Off.state());
        let viewports = padded_exec(&self.viewports, count, Viewport::framebuffer());
        let scissors = padded_exec(&self.scissors, count, Rect2D::Framebuffer);
        let both = DYNAMIC_VIEWPORT | DYNAMIC_SCISSOR;
        let baked_area = if self.dynamic.contains(both) {
            Rect { x: 0, y: 0, width: 0, height: 0 }
        } else {
            area
        };
        let dynamic_viewports = self.dynamic.contains(DYNAMIC_VIEWPORT);
        let dynamic_scissors = self.dynamic.contains(DYNAMIC_SCISSOR);
        let (state_viewports, value_viewports) = if dynamic_viewports {
            (Vec::new(), viewports)
        } else {
            (viewports, Vec::new())
        };
        let (state_scissors, value_scissors) = if dynamic_scissors {
            (Vec::new(), scissors)
        } else {
            (scissors, Vec::new())
        };
        let state = PipelineState {
            rendering: self.rendering.copy(),
            topology: self.topology,
            rasterization: self.rasterization,
            depth: if self.rendering.depth_format.is_some() { self.depth } else { DepthState::off() },
            blend,
            viewport_count: count as u32,
            viewports: state_viewports,
            scissors: state_scissors,
            area: baked_area,
            dynamic: self.dynamic,
        };
        let values = DynamicValues {
            viewports: value_viewports,
            scissors: value_scissors,
            push_constants: self.push_constants.copy(),
            push_sources: copy_vec(&self.push_sources),
        };
        (state, values)
    }
}

impl PipelineState {
    /// The state of a draw with nothing set: the initial pass state over an empty area.
    pub fn initial() -> (r: PipelineState)
        ensures
            r.rendering.color_formats@.len() == 0,
            r.topology == TOPOLOGY_TRIANGLE_LIST,
            r.dynamic.0 == DYNAMIC_VIEWPORT | DYNAMIC_SCISSOR,
    {
        let (state, _) = PassState::initial().resolve(Rect { x: 0, y: 0, width: 0, height: 0 });
        state
    }

    /// The Vulkan dynamic states (0 viewport, 1 scissor) the pipeline leaves to the draws.
    pub fn dynamic_states(&self) -> (r: Vec<i32>)
        ensures
            r@ == (if self.dynamic.0 & DYNAMIC_VIEWPORT == DYNAMIC_VIEWPORT { seq![0i32] } else { seq![] })
                + (if self.dynamic.0 & DYNAMIC_SCISSOR == DYNAMIC_SCISSOR { seq![1i32] } else { seq![] }),
    {
        let mut states = Vec::new();
        if self.dynamic.contains(DYNAMIC_VIEWPORT) {
            states.push(0i32);
        }
        if self.dynamic.contains(DYNAMIC_SCISSOR) {
            states.push(1i32);
        }
        assert(states@ =~= (if self.dynamic.0 & DYNAMIC_VIEWPORT == DYNAMIC_VIEWPORT { seq![0i32] } else { seq![] })
                + (if self.dynamic.0 & DYNAMIC_SCISSOR == DYNAMIC_SCISSOR { seq![1i32] } else { seq![] }));
        states
    }
}

} // verus!
