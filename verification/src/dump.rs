//! A program written out as text, one instruction a line.
use vstd::prelude::*;
use vstd::string::*;

use crate::access::{Access, ACCESS_ALL, ACCESS_BITS, DOMAIN_COMPUTE, DOMAIN_GRAPHICS, DOMAIN_HOST, DOMAIN_PRESENT, DOMAIN_TRANSFER};
use crate::analysis::{first_index, position_of};
use crate::ids::{LabelId, PipelineId, ValueId, INVALID_ID};
use crate::ir::{
    ClearValue, Constant, Descriptor, DispatchSize, IR, MAX_RESOLVE_DEPTH, ResourceSideEffect, SideEffectAccess, Type,
    UnderlyingObject, VariableKind, underlying_object, underlying_object_spec,
};
use crate::resource::{BufferImageCopy, Extent3D, MemoryLocation, VIEW_TYPE_2D};
use crate::state::{
    preset_state, BlendPreset, ColorBlendAttachmentState, DYNAMIC_SCISSOR, DYNAMIC_VIEWPORT, DynamicValues, ONE_F32_BITS,
    PipelineState, PushConstants, RasterizationState, Rect, Rect2D, SAMPLE_COUNT_1, StateChange,
    TOPOLOGY_TRIANGLE_LIST, Viewport,
};
use crate::text::{alphabetic, alphanumeric, white_space, 
    decimal, decimal_text, ends_with, hexadecimal, digit_char, is_alphabetic, is_alphanumeric, is_ascii_digit, is_whitespace, push, push_byte,
    push_decimal, push_hex, push_signed, quote, quoted, trimmed, trim_end_matches, text_ends_with,
};
use crate::vkname::{buffer_handle_name, image_handle_name, image_view_handle_name, index_type_name, sampler_handle_name, topology_name, compare_op_name, format_name, view_type_name, buffer_usage_name, filter_name, bind_point_name,
    blend_factor_name, blend_op_name, color_mask_name, cull_mode_name, front_face_name, layout_name, polygon_mode_name,
    bind_point_text, blend_factor_text, blend_op_text, buffer_handle_text, buffer_usage_text, color_mask_text,
    compare_op_text, cull_mode_text, filter_text, format_text, front_face_text, image_handle_text,
    image_view_handle_text, index_type_text, layout_text, polygon_mode_text, sampler_handle_text, topology_text,
    view_type_text,
};

verus! {

/// The names of the access bits, in the order of the bits.
pub open spec fn flag_name(bit: u32) -> Seq<char> {
    if bit == 0 {
        "Clear"@
    } else if bit == 1 {
        "BlitRead"@
    } else if bit == 2 {
        "BlitWrite"@
    } else if bit == 3 {
        "CopyRead"@
    } else if bit == 4 {
        "CopyWrite"@
    } else if bit == 5 {
        "ColorRead"@
    } else if bit == 6 {
        "ColorWrite"@
    } else if bit == 7 {
        "DepthStencilRead"@
    } else if bit == 8 {
        "DepthStencilWrite"@
    } else if bit == 9 {
        "VertexSampled"@
    } else if bit == 10 {
        "FragmentSampled"@
    } else if bit == 11 {
        "ComputeSampled"@
    } else if bit == 12 {
        "FragmentRead"@
    } else if bit == 13 {
        "FragmentWrite"@
    } else if bit == 14 {
        "ComputeRead"@
    } else if bit == 15 {
        "ComputeWrite"@
    } else if bit == 16 {
        "ComputeUniformRead"@
    } else if bit == 17 {
        "AttributeRead"@
    } else if bit == 18 {
        "IndexRead"@
    } else if bit == 19 {
        "IndirectRead"@
    } else if bit == 20 {
        "HostWrite"@
    } else if bit == 21 {
        "Present"@
    } else if bit == 22 {
        "VertexRead"@
    } else if bit == 23 {
        "VertexWrite"@
    } else if bit == 24 {
        "VertexUniformRead"@
    } else if bit == 25 {
        "FragmentUniformRead"@
    } else if bit == 26 {
        "InputAttachmentRead"@
    } else if bit == 27 {
        "VertexAccelerationStructureRead"@
    } else if bit == 28 {
        "FragmentAccelerationStructureRead"@
    } else {
        "ComputeAccelerationStructureRead"@
    }
}

pub fn access_flag_name(bit: u32) -> (r: &'static str)
    ensures
        r@ == flag_name(bit),
{
    if bit == 0 {
        "Clear"
    } else if bit == 1 {
        "BlitRead"
    } else if bit == 2 {
        "BlitWrite"
    } else if bit == 3 {
        "CopyRead"
    } else if bit == 4 {
        "CopyWrite"
    } else if bit == 5 {
        "ColorRead"
    } else if bit == 6 {
        "ColorWrite"
    } else if bit == 7 {
        "DepthStencilRead"
    } else if bit == 8 {
        "DepthStencilWrite"
    } else if bit == 9 {
        "VertexSampled"
    } else if bit == 10 {
        "FragmentSampled"
    } else if bit == 11 {
        "ComputeSampled"
    } else if bit == 12 {
        "FragmentRead"
    } else if bit == 13 {
        "FragmentWrite"
    } else if bit == 14 {
        "ComputeRead"
    } else if bit == 15 {
        "ComputeWrite"
    } else if bit == 16 {
        "ComputeUniformRead"
    } else if bit == 17 {
        "AttributeRead"
    } else if bit == 18 {
        "IndexRead"
    } else if bit == 19 {
        "IndirectRead"
    } else if bit == 20 {
        "HostWrite"
    } else if bit == 21 {
        "Present"
    } else if bit == 22 {
        "VertexRead"
    } else if bit == 23 {
        "VertexWrite"
    } else if bit == 24 {
        "VertexUniformRead"
    } else if bit == 25 {
        "FragmentUniformRead"
    } else if bit == 26 {
        "InputAttachmentRead"
    } else if bit == 27 {
        "VertexAccelerationStructureRead"
    } else if bit == 28 {
        "FragmentAccelerationStructureRead"
    } else {
        "ComputeAccelerationStructureRead"
    }
}

/// Whether any of the first `n` bits of `bits` is set.
pub open spec fn any_flag(bits: u32, n: nat) -> bool
    decreases n,
{
    n > 0 && (bits & (1u32 << (n - 1) as u32) != 0 || any_flag(bits, (n - 1) as nat))
}

/// The names of the first `n` bits set in `bits`, joined by `|`.
pub open spec fn flag_names(bits: u32, n: nat) -> Seq<char>
    decreases n,
{
    if n == 0 {
        Seq::empty()
    } else if bits & (1u32 << (n - 1) as u32) == 0 {
        flag_names(bits, (n - 1) as nat)
    } else if any_flag(bits, (n - 1) as nat) {
        flag_names(bits, (n - 1) as nat) + "|"@ + flag_name((n - 1) as u32)
    } else {
        flag_name((n - 1) as u32)
    }
}

proof fn lemma_no_flags_no_names(bits: u32, n: nat)
    requires
        !any_flag(bits, n),
    ensures
        flag_names(bits, n) == Seq::<char>::empty(),
    decreases n,
{
    if n > 0 {
        lemma_no_flags_no_names(bits, (n - 1) as nat);
    }
}

/// An access as the names of its flags joined by `|`, or `None` for none.
pub open spec fn access_text(bits: u32) -> Seq<char> {
    if bits & ACCESS_ALL == 0 { "None"@ } else { flag_names(bits, ACCESS_BITS as nat) }
}

pub fn push_access(out: &mut String, access: Access)
    ensures
        final(out)@ == old(out)@ + access_text(access.0),
{
    if access.0 & ACCESS_ALL == 0 {
        push(out, "None");
        return;
    }
    let ghost start = out@;
    let mut first = true;
    let mut bit: u32 = 0;
    while bit < ACCESS_BITS
        invariant
            bit <= ACCESS_BITS,
            out@ == start + flag_names(access.0, bit as nat),
            first == !any_flag(access.0, bit as nat),
        decreases ACCESS_BITS - bit,
    {
        let ghost before = out@;
        proof {
            assert(((bit + 1) - 1) as u32 == bit);
        }
        if access.0 & (1u32 << bit) != 0 {
            if !first {
                push(out, "|");
            }
            push(out, access_flag_name(bit));
            proof {
                if !first {
                    assert(out@ =~= start + (flag_names(access.0, bit as nat) + "|"@ + flag_name(bit)));
                } else {
                    lemma_no_flags_no_names(access.0, bit as nat);
                    assert(out@ =~= start + flag_name(bit));
                }
            }
            first = false;
        }
        bit = bit + 1;
    }
}

/// Some flag among the first `n` of `names` is set in `bits`.
pub open spec fn any_named(bits: u32, names: Seq<(u32, &'static str)>, n: int) -> bool
    decreases n,
{
    n > 0 && ((names[n - 1].0 != 0 && bits & names[n - 1].0 == names[n - 1].0) || any_named(bits, names, n - 1))
}

/// The names of the flags among the first `n` of `names` set in `bits`, joined by `|`.
pub open spec fn named_flags(bits: u32, names: Seq<(u32, &'static str)>, n: int) -> Seq<char>
    decreases n,
{
    if n <= 0 {
        Seq::empty()
    } else if !(names[n - 1].0 != 0 && bits & names[n - 1].0 == names[n - 1].0) {
        named_flags(bits, names, n - 1)
    } else if any_named(bits, names, n - 1) {
        named_flags(bits, names, n - 1) + "|"@ + names[n - 1].1@
    } else {
        names[n - 1].1@
    }
}

/// The flags of `names` set in `bits`, by their names joined by `|`, or `none`.
pub open spec fn named_text(bits: u32, names: Seq<(u32, &'static str)>) -> Seq<char> {
    if any_named(bits, names, names.len() as int) {
        named_flags(bits, names, names.len() as int)
    } else {
        "none"@
    }
}

proof fn lemma_nothing_named(bits: u32, names: Seq<(u32, &'static str)>, n: int)
    requires
        !any_named(bits, names, n),
    ensures
        named_flags(bits, names, n) == Seq::<char>::empty(),
    decreases n,
{
    if n > 0 {
        lemma_nothing_named(bits, names, n - 1);
    }
}

/// Flags with names, joined by `|`, or `none` where none is set.
fn push_named_flags(out: &mut String, bits: u32, names: &Vec<(u32, &'static str)>)
    ensures
        final(out)@ == old(out)@ + named_text(bits, names@),
{
    let ghost start = out@;
    let mut first = true;
    let mut i: usize = 0;
    while i < names.len()
        invariant
            i <= names@.len(),
            out@ == start + named_flags(bits, names@, i as int),
            first == !any_named(bits, names@, i as int),
        decreases names@.len() - i,
    {
        let (flag, name) = names[i];
        if flag != 0 && bits & flag == flag {
            if !first {
                push(out, "|");
                push(out, name);
                proof {
                    assert(out@ =~= start + (named_flags(bits, names@, i as int) + "|"@ + name@));
                }
            } else {
                push(out, name);
                proof {
                    lemma_nothing_named(bits, names@, i as int);
                    assert(out@ =~= start + name@);
                }
            }
            first = false;
        }
        i = i + 1;
    }
    if first {
        proof {
            lemma_nothing_named(bits, names@, i as int);
        }
        push(out, "none");
    }
}

/// The queue domains, by name.
pub open spec fn domain_names() -> Seq<(u32, &'static str)> {
    seq![(DOMAIN_HOST, "Host"), (DOMAIN_PRESENT, "Present"), (DOMAIN_GRAPHICS, "Graphics"), (DOMAIN_COMPUTE, "Compute"), (DOMAIN_TRANSFER, "Transfer")]
}

/// The dynamic states, by name.
pub open spec fn dynamic_names() -> Seq<(u32, &'static str)> {
    seq![(DYNAMIC_VIEWPORT, "Viewport"), (DYNAMIC_SCISSOR, "Scissor")]
}

/// The image usages, by the names the dump gives them.
pub open spec fn usage_names() -> Seq<(u32, &'static str)> {
    seq![(0x1u32, "TRANSFER_SRC"), (0x2u32, "TRANSFER_DST"), (0x4u32, "SAMPLED"), (0x8u32, "STORAGE"), (0x10u32, "COLOR_ATTACHMENT"), (0x20u32, "DEPTH_STENCIL"), (0x80u32, "INPUT_ATTACHMENT")]
}

/// The queue domains a release hands a resource to.
pub fn push_domain(out: &mut String, domain: u32)
    ensures
        final(out)@ == old(out)@ + named_text(domain, domain_names()),
{
    let mut names: Vec<(u32, &'static str)> = Vec::new();
    names.push((DOMAIN_HOST, "Host"));
    names.push((DOMAIN_PRESENT, "Present"));
    names.push((DOMAIN_GRAPHICS, "Graphics"));
    names.push((DOMAIN_COMPUTE, "Compute"));
    names.push((DOMAIN_TRANSFER, "Transfer"));
    proof {
        assert(names@ =~= domain_names());
    }
    push_named_flags(out, domain, &names);
}

/// The dynamic states a pipeline leaves to its draws.
pub fn push_dynamic(out: &mut String, dynamic: u32)
    ensures
        final(out)@ == old(out)@ + named_text(dynamic, dynamic_names()),
{
    let mut names: Vec<(u32, &'static str)> = Vec::new();
    names.push((DYNAMIC_VIEWPORT, "Viewport"));
    names.push((DYNAMIC_SCISSOR, "Scissor"));
    proof {
        assert(names@ =~= dynamic_names());
    }
    push_named_flags(out, dynamic, &names);
}

/// The image usages, by the names the dump gives them.
pub fn push_usage(out: &mut String, usage: u32)
    ensures
        final(out)@ == old(out)@ + named_text(usage, usage_names()),
{
    let mut names: Vec<(u32, &'static str)> = Vec::new();
    names.push((0x1, "TRANSFER_SRC"));
    names.push((0x2, "TRANSFER_DST"));
    names.push((0x4, "SAMPLED"));
    names.push((0x8, "STORAGE"));
    names.push((0x10, "COLOR_ATTACHMENT"));
    names.push((0x20, "DEPTH_STENCIL"));
    names.push((0x80, "INPUT_ATTACHMENT"));
    proof {
        assert(names@ =~= usage_names());
    }
    push_named_flags(out, usage, &names);
}

/// A layout by its name, without the `_OPTIMAL` every optimal layout's name ends in.
pub fn push_layout(out: &mut String, layout: i32)
    ensures
        final(out)@ == old(out)@ + trimmed(layout_name(layout), "_OPTIMAL"@),
{
    let name = layout_text(layout);
    proof {
        reveal_strlit("_OPTIMAL");
    }
    let trimmed = trim_end_matches(name.as_str(), "_OPTIMAL");
    push(out, trimmed.as_str());
}

/// A raw value held as the bit pattern of a float, as its bits.
pub open spec fn bits_text(bits: u32) -> Seq<char> {
    "0x"@ + hexadecimal(bits as nat)
}

/// A signed number in decimal, with a minus sign where it is negative.
pub open spec fn signed_text(n: int) -> Seq<char> {
    if n >= 0 { decimal(n as nat) } else { seq!['-'] + decimal((-n) as nat) }
}

/// A rectangle as its offset and its extent.
pub open spec fn rect_text(rect: Rect) -> Seq<char> {
    signed_text(rect.x as int) + ","@ + signed_text(rect.y as int) + " "@ + decimal(rect.width as nat) + "x"@ + decimal(
        rect.height as nat,
    )
}

/// A rectangle given absolutely, or relative to the framebuffer.
pub open spec fn rect2d_text(rect: Rect2D) -> Seq<char> {
    match rect {
        Rect2D::Framebuffer => "framebuffer"@,
        Rect2D::Absolute(r) => rect_text(r),
        Rect2D::Relative { x, y, width, height } => bits_text(x) + ","@ + bits_text(y) + " "@ + bits_text(width) + "x"@
            + bits_text(height) + " of framebuffer"@,
    }
}

/// A viewport: its rectangle, and its depth range where that is not zero to one.
pub open spec fn viewport_text(viewport: Viewport) -> Seq<char> {
    rect2d_text(viewport.rect) + if viewport.min_depth == 0 && viewport.max_depth == ONE_F32_BITS {
        Seq::empty()
    } else {
        " depth="@ + bits_text(viewport.min_depth) + ".."@ + bits_text(viewport.max_depth)
    }
}

/// The faces culled: `NONE`, or as ash names them.
pub open spec fn cull_text(cull: u32) -> Seq<char> {
    if cull == 0 { "NONE"@ } else { cull_mode_name(cull) }
}

/// The rasterization state: polygon mode, culling, front face, and a line width that is not one.
pub open spec fn rasterization_text(state: RasterizationState) -> Seq<char> {
    polygon_mode_name(state.polygon_mode) + " cull="@ + cull_text(state.cull_mode) + " front="@ + front_face_name(
        state.front_face,
    ) + if state.line_width != ONE_F32_BITS {
        " line_width="@ + bits_text(state.line_width)
    } else {
        Seq::empty()
    }
}

fn push_bits(out: &mut String, bits: u32)
    ensures
        final(out)@ == old(out)@ + bits_text(bits),
{
    let ghost start = out@;
    push(out, "0x");
    push_hex(out, bits as u64);
    proof {
        assert(out@ =~= start + bits_text(bits));
    }
}

fn push_signed_text(out: &mut String, n: i64)
    ensures
        final(out)@ == old(out)@ + signed_text(n as int),
{
    let ghost start = out@;
    push_signed(out, n);
    proof {
        if n < 0 {
            assert(out@ =~= start + signed_text(n as int));
        }
    }
}

pub fn push_rect(out: &mut String, rect: &Rect)
    ensures
        final(out)@ == old(out)@ + rect_text(*rect),
{
    let ghost start = out@;
    push_signed_text(out, rect.x as i64);
    push(out, ",");
    push_signed_text(out, rect.y as i64);
    push(out, " ");
    push_decimal(out, rect.width as u64);
    push(out, "x");
    push_decimal(out, rect.height as u64);
    proof {
        assert(out@ =~= start + rect_text(*rect));
    }
}

pub fn push_rect2d(out: &mut String, rect: &Rect2D)
    ensures
        final(out)@ == old(out)@ + rect2d_text(*rect),
{
    let ghost start = out@;
    match rect {
        Rect2D::Framebuffer => push(out, "framebuffer"),
        Rect2D::Absolute(r) => push_rect(out, r),
        Rect2D::Relative { x, y, width, height } => {
            push_bits(out, *x);
            push(out, ",");
            push_bits(out, *y);
            push(out, " ");
            push_bits(out, *width);
            push(out, "x");
            push_bits(out, *height);
            push(out, " of framebuffer");
            proof {
                assert(out@ =~= start + rect2d_text(*rect));
            }
        },
    }
}

pub fn push_viewport(out: &mut String, viewport: &Viewport)
    ensures
        final(out)@ == old(out)@ + viewport_text(*viewport),
{
    let ghost start = out@;
    push_rect2d(out, &viewport.rect);
    if !(viewport.min_depth == 0 && viewport.max_depth == ONE_F32_BITS) {
        push(out, " depth=");
        push_bits(out, viewport.min_depth);
        push(out, "..");
        push_bits(out, viewport.max_depth);
    }
    proof {
        assert(out@ =~= start + viewport_text(*viewport));
    }
}

pub fn push_cull(out: &mut String, cull: u32)
    ensures
        final(out)@ == old(out)@ + cull_text(cull),
{
    if cull == 0 {
        push(out, "NONE");
    } else {
        let text = cull_mode_text(cull);
        push(out, text.as_str());
    }
}

pub fn push_rasterization(out: &mut String, state: &RasterizationState)
    ensures
        final(out)@ == old(out)@ + rasterization_text(*state),
{
    let ghost start = out@;
    let mode = polygon_mode_text(state.polygon_mode);
    push(out, mode.as_str());
    push(out, " cull=");
    push_cull(out, state.cull_mode);
    push(out, " front=");
    let front = front_face_text(state.front_face);
    push(out, front.as_str());
    if state.line_width != ONE_F32_BITS {
        push(out, " line_width=");
        push_bits(out, state.line_width);
    }
    proof {
        assert(out@ =~= start + rasterization_text(*state));
    }
}

/// A blend state: the preset it is, or its factors, operations and write mask.
pub open spec fn blend_text(state: ColorBlendAttachmentState) -> Seq<char> {
    if state == preset_state(BlendPreset::Off) {
        "Off"@
    } else if state == preset_state(BlendPreset::AlphaBlend) {
        "AlphaBlend"@
    } else if state == preset_state(BlendPreset::PremultipliedAlphaBlend) {
        "PremultipliedAlphaBlend"@
    } else if state == preset_state(BlendPreset::Additive) {
        "Additive"@
    } else {
        "color="@ + blend_factor_name(state.src_color_blend_factor) + "*"@ + blend_factor_name(state.dst_color_blend_factor)
            + " "@ + blend_op_name(state.color_blend_op) + " alpha="@ + blend_factor_name(state.src_alpha_blend_factor)
            + "*"@ + blend_factor_name(state.dst_alpha_blend_factor) + " "@ + blend_op_name(state.alpha_blend_op)
            + " mask="@ + color_mask_name(state.color_write_mask)
    }
}

pub fn push_blend(out: &mut String, state: &ColorBlendAttachmentState)
    ensures
        final(out)@ == old(out)@ + blend_text(*state),
{
    let ghost start = out@;
    if *state == BlendPreset::Off.state() {
        push(out, "Off");
        return;
    }
    if *state == BlendPreset::AlphaBlend.state() {
        push(out, "AlphaBlend");
        return;
    }
    if *state == BlendPreset::PremultipliedAlphaBlend.state() {
        push(out, "PremultipliedAlphaBlend");
        return;
    }
    if *state == BlendPreset::Additive.state() {
        push(out, "Additive");
        return;
    }
    push(out, "color=");
    push(out, blend_factor_text(state.src_color_blend_factor).as_str());
    push(out, "*");
    push(out, blend_factor_text(state.dst_color_blend_factor).as_str());
    push(out, " ");
    push(out, blend_op_text(state.color_blend_op).as_str());
    push(out, " alpha=");
    push(out, blend_factor_text(state.src_alpha_blend_factor).as_str());
    push(out, "*");
    push(out, blend_factor_text(state.dst_alpha_blend_factor).as_str());
    push(out, " ");
    push(out, blend_op_text(state.alpha_blend_op).as_str());
    push(out, " mask=");
    push(out, color_mask_text(state.color_write_mask).as_str());
    proof {
        assert(out@ =~= start + blend_text(*state));
    }
}

/// The first sixteen bytes as two hexadecimal digits each, with `..` after them where there
/// are more.
pub fn push_bytes(out: &mut String, data: &Vec<u8>)
    ensures
        final(out)@ == old(out)@ + bytes_text(data@, if data@.len() < 16 { data@.len() as int } else { 16 }) + if data@.len()
            > 16 {
            " .."@
        } else {
            Seq::empty()
        },
{
    let ghost start = out@;
    let mut i: usize = 0;
    while i < data.len() && i < 16
        invariant
            i <= data@.len(),
            i <= 16,
            out@ == start + bytes_text(data@, i as int),
        decreases data@.len() - i,
    {
        if i > 0 {
            push(out, " ");
        }
        push_byte(out, data[i]);
        proof {
            if i > 0 {
                assert(out@ =~= start + bytes_text(data@, i + 1));
            } else {
                assert(out@ =~= start + bytes_text(data@, 1));
            }
        }
        i = i + 1;
    }
    let ghost shown_bytes = out@;
    if data.len() > 16 {
        push(out, " ..");
    }
    proof {
        assert(i == (if data@.len() < 16 { data@.len() as int } else { 16 }));
        assert(out@ =~= start + bytes_text(data@, i as int) + if data@.len() > 16 {
            " .."@
        } else {
            Seq::empty()
        });
    }
}

/// The pipeline a draw runs with, or `none`.
pub fn push_pipeline(out: &mut String, pipeline: PipelineId)
    ensures
        pipeline.0 != INVALID_ID ==> final(out)@ == old(out)@ + "pipeline=#"@ + decimal(pipeline.0 as nat),
        pipeline.0 == INVALID_ID ==> final(out)@ == old(out)@ + "pipeline=none"@,
{
    if pipeline.0 != INVALID_ID {
        push(out, "pipeline=#");
        push_decimal(out, pipeline.0 as u64);
    } else {
        push(out, "pipeline=none");
    }
}

/// A value's id, as `%` and its number.
pub fn push_id(out: &mut String, id: ValueId)
    ensures
        final(out)@ == old(out)@ + "%"@ + decimal(id.0 as nat),
{
    push(out, "%");
    push_decimal(out, id.0 as u64);
}

/// A label, as `label` and its number.
pub fn push_label(out: &mut String, label: LabelId)
    ensures
        final(out)@ == old(out)@ + "label "@ + decimal(label.0 as nat),
{
    push(out, "label ");
    push_decimal(out, label.0 as u64);
}

/// A variable's kind by name, with the size of bytes in brackets.
pub open spec fn kind_text(kind: VariableKind) -> Seq<char> {
    match kind {
        VariableKind::Bool => "Bool"@,
        VariableKind::I32 => "I32"@,
        VariableKind::U32 => "U32"@,
        VariableKind::Extent2D => "Extent2D"@,
        VariableKind::Extent3D => "Extent3D"@,
        VariableKind::ClearValue => "ClearValue"@,
        VariableKind::Bytes(size) => "Bytes("@ + decimal(size as nat) + ")"@,
        VariableKind::Swapchain => "Swapchain"@,
        VariableKind::Buffer => "Buffer"@,
        VariableKind::ImageAttachment => "ImageAttachment"@,
        VariableKind::Callback => "Callback"@,
    }
}

/// A memory location by name.
pub open spec fn location_text(location: MemoryLocation) -> Seq<char> {
    match location {
        MemoryLocation::Unknown => "Unknown"@,
        MemoryLocation::GpuOnly => "GpuOnly"@,
        MemoryLocation::CpuToGpu => "CpuToGpu"@,
        MemoryLocation::GpuToCpu => "GpuToCpu"@,
    }
}

/// A clear color as the bits of its four channels.
pub open spec fn clear_text(value: ClearValue) -> Seq<char> {
    "["@ + bits_text(value.r) + ", "@ + bits_text(value.g) + ", "@ + bits_text(value.b) + ", "@ + bits_text(value.a) + "]"@
}

/// A constant as its value: numbers in decimal, strings quoted, accesses by their flags,
/// clear colors by their bits, extents as their sides with a depth of one left out.
pub open spec fn constant_text(constant: Constant) -> Seq<char> {
    match constant {
        Constant::I32(v) => signed_text(v as int),
        Constant::U32(v) => decimal(v as nat),
        Constant::Size(v) => decimal(v as nat),
        Constant::String(v) => quoted(v@),
        Constant::Access(a) => access_text(a.0),
        Constant::ClearValue(c) => clear_text(c),
        Constant::Extent2D(e) => decimal(e.width as nat) + "x"@ + decimal(e.height as nat),
        Constant::Extent3D(e) => decimal(e.width as nat) + "x"@ + decimal(e.height as nat) + if e.depth != 1 {
            "x"@ + decimal(e.depth as nat)
        } else {
            Seq::empty()
        },
    }
}

/// The first sixteen of `data` as two hexadecimal digits each, separated by spaces.
pub open spec fn bytes_text(data: Seq<u8>, n: int) -> Seq<char>
    decreases n,
{
    if n <= 0 {
        Seq::empty()
    } else {
        let byte = data[n - 1];
        let digits = seq![digit_char((byte / 16) as int), digit_char((byte % 16) as int)];
        if n == 1 { digits } else { bytes_text(data, n - 1) + " "@ + digits }
    }
}

pub fn push_kind(out: &mut String, kind: VariableKind)
    ensures
        final(out)@ == old(out)@ + kind_text(kind),
{
    let ghost start = out@;
    match kind {
        VariableKind::Bool => push(out, "Bool"),
        VariableKind::I32 => push(out, "I32"),
        VariableKind::U32 => push(out, "U32"),
        VariableKind::Extent2D => push(out, "Extent2D"),
        VariableKind::Extent3D => push(out, "Extent3D"),
        VariableKind::ClearValue => push(out, "ClearValue"),
        VariableKind::Bytes(size) => {
            push(out, "Bytes(");
            push_decimal(out, size as u64);
            push(out, ")");
            proof {
                assert(out@ =~= start + kind_text(kind));
            }
        },
        VariableKind::Swapchain => push(out, "Swapchain"),
        VariableKind::Buffer => push(out, "Buffer"),
        VariableKind::ImageAttachment => push(out, "ImageAttachment"),
        VariableKind::Callback => push(out, "Callback"),
    }
}

pub fn push_location(out: &mut String, location: MemoryLocation)
    ensures
        final(out)@ == old(out)@ + location_text(location),
{
    match location {
        MemoryLocation::Unknown => push(out, "Unknown"),
        MemoryLocation::GpuOnly => push(out, "GpuOnly"),
        MemoryLocation::CpuToGpu => push(out, "CpuToGpu"),
        MemoryLocation::GpuToCpu => push(out, "GpuToCpu"),
    }
}

fn push_clear(out: &mut String, value: &ClearValue)
    ensures
        final(out)@ == old(out)@ + clear_text(*value),
{
    let ghost start = out@;
    push(out, "[");
    push_bits(out, value.r);
    push(out, ", ");
    push_bits(out, value.g);
    push(out, ", ");
    push_bits(out, value.b);
    push(out, ", ");
    push_bits(out, value.a);
    push(out, "]");
    proof {
        assert(out@ =~= start + clear_text(*value));
    }
}

/// A constant as its value: numbers in decimal, strings quoted, accesses by their flags,
/// extents as their sides (a depth of one left out).
pub fn push_constant(out: &mut String, constant: &Constant)
    ensures
        final(out)@ == old(out)@ + constant_text(*constant),
{
    let ghost start = out@;
    match constant {
        Constant::I32(v) => push_signed_text(out, *v as i64),
        Constant::U32(v) => push_decimal(out, *v as u64),
        Constant::Size(v) => push_decimal(out, *v),
        Constant::String(v) => {
            let q = quote(v.as_str());
            push(out, q.as_str());
        },
        Constant::Access(a) => push_access(out, *a),
        Constant::ClearValue(c) => push_clear(out, c),
        Constant::Extent2D(e) => {
            push_decimal(out, e.width as u64);
            push(out, "x");
            push_decimal(out, e.height as u64);
            proof {
                assert(out@ =~= start + constant_text(*constant));
            }
        },
        Constant::Extent3D(e) => {
            push_decimal(out, e.width as u64);
            push(out, "x");
            push_decimal(out, e.height as u64);
            if e.depth != 1 {
                push(out, "x");
                push_decimal(out, e.depth as u64);
            }
            proof {
                assert(out@ =~= start + constant_text(*constant));
            }
        },
    }
}

/// The constant `id` first defines among `instructions`, where it is one.
pub open spec fn constant_of(instructions: Seq<(ValueId, IR)>, id: ValueId) -> Option<Constant> {
    match first_index(instructions, id, instructions.len() as int) {
        Some(j) => match instructions[j].1 {
            IR::Constant(c) => Some(c),
            _ => None,
        },
        None => None,
    }
}

/// Where the resource `id` reaches is defined, followed back at most `fuel` steps through what
/// it forwards and what it is an element of, and whether an array was passed through, having
/// passed through one already where `through` holds.
pub open spec fn resolve_from(instrs: Seq<(ValueId, IR)>, id: ValueId, through: bool, fuel: nat) -> Option<(int, bool)>
    decreases fuel,
{
    if fuel == 0 {
        None
    } else {
        match first_index(instrs, id, instrs.len() as int) {
            None => None,
            Some(k) => match underlying_object_spec(instrs[k].1) {
                UnderlyingObject::Base => Some((k, through)),
                UnderlyingObject::Forwards(next) => resolve_from(instrs, next, through, (fuel - 1) as nat),
                UnderlyingObject::Element(next) => resolve_from(instrs, next, true, (fuel - 1) as nat),
                UnderlyingObject::NoResource => None,
            },
        }
    }
}

/// Where the resource `id` reaches is defined, and whether an array was passed through.
pub open spec fn resolved(instrs: Seq<(ValueId, IR)>, id: ValueId) -> Option<(int, bool)> {
    resolve_from(instrs, id, false, MAX_RESOLVE_DEPTH as nat)
}

/// `s` up to its first `#`, all of it where it has none.
pub open spec fn before_hash(s: Seq<char>) -> Seq<char> {
    if exists|i: int| 0 <= i < s.len() && s[i] == '#' {
        let i = choose|i: int| 0 <= i < s.len() && s[i] == '#' && forall|j: int| 0 <= j < i ==> s[j] != '#';
        s.take(i)
    } else {
        s
    }
}

/// The name of the resource `id` reaches: the one it was given, up to the first `#` where it
/// was reached through an array, `swapchain` for a swapchain image.
pub open spec fn name_of(instrs: Seq<(ValueId, IR)>, id: ValueId) -> Option<Seq<char>> {
    match resolved(instrs, id) {
        None => None,
        Some((k, through)) => match instrs[k].1 {
            IR::SwapchainImage { .. } => Some("swapchain"@),
            IR::ConstructImage { name, .. } | IR::ConstructBuffer { name, .. } => match constant_of(instrs, name) {
                Some(Constant::String(s)) => Some(if through { before_hash(s@) } else { s@ }),
                _ => None,
            },
            _ => None,
        },
    }
}

/// The constant extent of the image `id` reaches.
pub open spec fn extent_of(instrs: Seq<(ValueId, IR)>, id: ValueId) -> Option<Extent3D> {
    match resolved(instrs, id) {
        None => None,
        Some((k, _)) => match instrs[k].1 {
            IR::ConstructImage { extent, .. } => match constant_of(instrs, extent) {
                Some(Constant::Extent3D(e)) => Some(e),
                _ => None,
            },
            _ => None,
        },
    }
}

/// `%` and the id.
pub open spec fn id_text(id: ValueId) -> Seq<char> {
    "%"@ + decimal(id.0 as nat)
}

/// An operand as a dump writes it: a constant as its value (after its id where constants are
/// written explicitly), a variable by its id and name or its slot, anything else by its id
/// and, where it reaches a named resource, that name.
pub open spec fn operand_text(instrs: Seq<(ValueId, IR)>, inline: bool, id: ValueId) -> Seq<char> {
    match constant_of(instrs, id) {
        Some(c) => if inline {
            constant_text(c)
        } else {
            id_text(id) + "("@ + constant_text(c) + ")"@
        },
        None => {
            let plain = id_text(id) + match name_of(instrs, id) {
                Some(n) => "("@ + n + ")"@,
                None => Seq::empty(),
            };
            match first_index(instrs, id, instrs.len() as int) {
                Some(k) => match instrs[k].1 {
                    IR::Variable { slot, name, .. } => match constant_of(instrs, name) {
                        Some(Constant::String(n)) => id_text(id) + "("@ + n@ + ")"@,
                        _ => "$slot"@ + decimal(slot as nat),
                    },
                    _ => plain,
                },
                None => plain,
            }
        },
    }
}

/// Operands as a dump writes them, joined by `, `.
pub open spec fn operands_text(instrs: Seq<(ValueId, IR)>, inline: bool, ids: Seq<ValueId>) -> Seq<char>
    decreases ids.len(),
{
    if ids.len() == 0 {
        Seq::empty()
    } else if ids.len() == 1 {
        operand_text(instrs, inline, ids[0])
    } else {
        operands_text(instrs, inline, ids.drop_last()) + ", "@ + operand_text(instrs, inline, ids.last())
    }
}

/// Attachments as a dump writes them, each as its resource and the access it is reached at,
/// joined by `, `.
pub open spec fn attachments_text(instrs: Seq<(ValueId, IR)>, inline: bool, list: Seq<(ValueId, ValueId)>) -> Seq<char>
    decreases list.len(),
{
    if list.len() == 0 {
        Seq::empty()
    } else {
        let one = operand_text(instrs, inline, list.last().0) + ":"@ + operand_text(instrs, inline, list.last().1);
        if list.len() == 1 {
            one
        } else {
            attachments_text(instrs, inline, list.drop_last()) + ", "@ + one
        }
    }
}

/// ` ` and the operand `name`, where there is one.
pub open spec fn name_text(instrs: Seq<(ValueId, IR)>, inline: bool, name: ValueId) -> Seq<char> {
    if name.0 != INVALID_ID {
        " "@ + operand_text(instrs, inline, name)
    } else {
        Seq::empty()
    }
}

/// The program a dump reads its operands out of: its instructions by id, which resources are
/// bound to variables, and whether constants are written in place of their ids.
pub struct Symbols<'a> {
    pub instructions: &'a Vec<(ValueId, IR)>,
    pub bound: Vec<ValueId>,
    pub inline_constants: bool,
}

impl<'a> Symbols<'a> {
    /// The symbols of `instructions`, with no resource bound and constants written in place.
    pub fn new(instructions: &'a Vec<(ValueId, IR)>) -> (r: Symbols<'a>)
        ensures
            r.instructions == instructions,
            r.bound@.len() == 0,
            r.inline_constants,
    {
        Symbols { instructions, bound: Vec::new(), inline_constants: true }
    }

    /// The symbols of `instructions` with the resources `bound` bound to variables.
    pub fn with_bound(instructions: &'a Vec<(ValueId, IR)>, bound: Vec<ValueId>) -> (r: Symbols<'a>)
        ensures
            r.instructions == instructions,
            r.bound@ == bound@,
            r.inline_constants,
    {
        Symbols { instructions, bound, inline_constants: true }
    }

    /// As [`Self::with_bound`], with each constant written after its id.
    pub fn with_explicit_constants(instructions: &'a Vec<(ValueId, IR)>, bound: Vec<ValueId>) -> (r: Symbols<'a>)
        ensures
            r.instructions == instructions,
            r.bound@ == bound@,
            !r.inline_constants,
    {
        Symbols { instructions, bound, inline_constants: false }
    }

    /// Whether the resource constructed at `id` is one a variable fills in.
    pub fn is_bound(&self, id: ValueId) -> (r: bool)
        ensures
            r == self.bound@.contains(id),
    {
        let mut i: usize = 0;
        while i < self.bound.len()
            invariant
                i <= self.bound@.len(),
                forall|k: int| 0 <= k < i ==> self.bound@[k] != id,
            decreases self.bound@.len() - i,
        {
            if self.bound[i] == id {
                return true;
            }
            i = i + 1;
        }
        false
    }

    /// Where the instruction `id` first stands.
    pub fn position(&self, id: ValueId) -> (r: Option<usize>)
        ensures
            r matches Some(k) ==> k < self.instructions@.len() && first_index(self.instructions@, id, self.instructions@.len() as int) == Some(k as int),
            r is None ==> first_index(self.instructions@, id, self.instructions@.len() as int) is None,
    {
        position_of(self.instructions, id)
    }

    /// The constant `id` defines.
    pub fn constant(&self, id: ValueId) -> (r: Option<&'a Constant>)
        ensures
            match r {
                Some(c) => constant_of(self.instructions@, id) == Some(*c),
                None => constant_of(self.instructions@, id) is None,
            },
    {
        match self.position(id) {
            Some(k) => match &self.instructions[k].1 {
                IR::Constant(c) => Some(c),
                _ => None,
            },
            None => None,
        }
    }

    /// The access the constant `id` holds.
    pub fn access(&self, id: ValueId) -> (r: Option<Access>)
        ensures
            r == (match constant_of(self.instructions@, id) {
                Some(Constant::Access(a)) => Some(a),
                _ => None,
            }),
    {
        match self.constant(id) {
            Some(Constant::Access(a)) => Some(*a),
            _ => None,
        }
    }

    /// The access a side effect reaches its resource at: the one it fixes, or the one the
    /// access constant it names holds.
    pub fn side_effect_access(&self, effect: &ResourceSideEffect) -> (r: Option<Access>)
        ensures
            r == (match effect.access {
                SideEffectAccess::Fixed(a) => Some(a),
                SideEffectAccess::Operand(id) => match constant_of(self.instructions@, id) {
                    Some(Constant::Access(a)) => Some(a),
                    _ => None,
                },
            }),
    {
        match effect.access {
            SideEffectAccess::Fixed(a) => Some(a),
            SideEffectAccess::Operand(id) => self.access(id),
        }
    }

    /// The string the constant `id` holds.
    pub fn string(&self, id: ValueId) -> (r: Option<&'a String>)
        ensures
            match r {
                Some(s) => constant_of(self.instructions@, id) == Some(Constant::String(*s)),
                None => !(constant_of(self.instructions@, id) matches Some(Constant::String(_))),
            },
    {
        match self.constant(id) {
            Some(Constant::String(s)) => Some(s),
            _ => None,
        }
    }

    fn is_u32(&self, id: ValueId, value: u32) -> (r: bool)
        ensures
            r == (constant_of(self.instructions@, id) == Some(Constant::U32(value))),
    {
        match self.constant(id) {
            Some(Constant::U32(v)) => *v == value,
            _ => false,
        }
    }

    /// The instruction that defines the resource `id` reaches, followed back through what it
    /// forwards and what it is an element of, and whether an array was passed through.
    pub fn resolve(&self, id: ValueId) -> (r: Option<(usize, bool)>)
        ensures
            r matches Some((k, _)) ==> k < self.instructions@.len(),
            r matches Some((k, t)) ==> resolved(self.instructions@, id) == Some((k as int, t)),
            r is None ==> resolved(self.instructions@, id) is None,
    {
        let mut current = id;
        let mut through_array = false;
        let mut depth: usize = 0;
        while depth < MAX_RESOLVE_DEPTH
            invariant
                depth <= MAX_RESOLVE_DEPTH,
                resolved(self.instructions@, id) == resolve_from(
                    self.instructions@,
                    current,
                    through_array,
                    (MAX_RESOLVE_DEPTH - depth) as nat,
                ),
            decreases MAX_RESOLVE_DEPTH - depth,
        {
            let k = match self.position(current) {
                Some(k) => k,
                None => return None,
            };
            match underlying_object(&self.instructions[k].1) {
                UnderlyingObject::Base => return Some((k, through_array)),
                UnderlyingObject::Forwards(next) => current = next,
                UnderlyingObject::Element(next) => {
                    through_array = true;
                    current = next;
                },
                UnderlyingObject::NoResource => return None,
            }
            depth = depth + 1;
        }
        None
    }

    /// The name of the resource `id` reaches: the one it was given, up to the first `#` where
    /// it was reached through an array, `swapchain` for a swapchain image.
    pub fn name(&self, id: ValueId) -> (r: Option<String>)
        ensures
            match r {
                Some(n) => name_of(self.instructions@, id) == Some(n@),
                None => name_of(self.instructions@, id) is None,
            },
    {
        let (k, through_array) = match self.resolve(id) {
            Some(found) => found,
            None => return None,
        };
        let named = match &self.instructions[k].1 {
            IR::ConstructImage { name, .. } | IR::ConstructBuffer { name, .. } => *name,
            IR::SwapchainImage { .. } => return Some("swapchain".to_owned()),
            _ => return None,
        };
        let name = match self.string(named) {
            Some(s) => s,
            None => return None,
        };
        if !through_array {
            return Some(name.clone());
        }
        let text = name.as_str();
        let n = text.unicode_len();
        let mut i: usize = 0;
        while i < n
            invariant
                i <= n,
                n == text@.len(),
                text@ == name@,
                name_of(self.instructions@, id) == Some(before_hash(text@)),
                forall|j: int| 0 <= j < i ==> text@[j] != '#',
            decreases n - i,
        {
            if text.get_char(i) == '#' {
                proof {
                    assert(text@[i as int] == '#');
                    assert(before_hash(text@) == text@.take(i as int));
                }
                let prefix = text.substring_char(0, i).to_owned();
                proof {
                    assert(prefix@ =~= text@.take(i as int));
                }
                return Some(prefix);
            }
            i = i + 1;
        }
        proof {
            assert(before_hash(text@) == text@);
        }
        Some(name.clone())
    }

    /// The extent of the image `id` reaches, where it was constructed at a constant one.
    pub fn extent(&self, id: ValueId) -> (r: Option<Extent3D>)
        ensures
            r == extent_of(self.instructions@, id),
    {
        let k = match self.resolve(id) {
            Some((k, _)) => k,
            None => return None,
        };
        let extent = match &self.instructions[k].1 {
            IR::ConstructImage { extent, .. } => *extent,
            _ => return None,
        };
        match self.constant(extent) {
            Some(Constant::Extent3D(e)) => Some(*e),
            _ => None,
        }
    }

    /// An operand: a constant as its value (after its id where constants are written
    /// explicitly), a variable by its id and name or its slot, anything else by its id and,
    /// where it reaches a named resource, that name.
    pub fn push_operand(&self, out: &mut String, id: ValueId)
        ensures
            final(out)@ == old(out)@ + operand_text(self.instructions@, self.inline_constants, id),
    {
        let ghost start = out@;
        if let Some(constant) = self.constant(id) {
            if self.inline_constants {
                push_constant(out, constant);
            } else {
                push_id(out, id);
                push(out, "(");
                push_constant(out, constant);
                push(out, ")");
                proof {
                    assert(out@ =~= start + (id_text(id) + "("@ + constant_text(*constant) + ")"@));
                }
            }
            return;
        }
        if let Some(k) = self.position(id) {
            if let IR::Variable { slot, name, .. } = &self.instructions[k].1 {
                match self.string(*name) {
                    Some(n) => {
                        push_id(out, id);
                        push(out, "(");
                        push(out, n.as_str());
                        push(out, ")");
                        proof {
                            assert(out@ =~= start + (id_text(id) + "("@ + n@ + ")"@));
                        }
                    },
                    None => {
                        push(out, "$slot");
                        push_decimal(out, *slot as u64);
                        proof {
                            assert(out@ =~= start + ("$slot"@ + decimal(*slot as nat)));
                        }
                    },
                }
                return;
            }
        }
        push_id(out, id);
        if let Some(name) = self.name(id) {
            push(out, "(");
            push(out, name.as_str());
            push(out, ")");
            proof {
                assert(out@ =~= start + (id_text(id) + ("("@ + name@ + ")"@)));
            }
        } else {
            proof {
                assert(out@ =~= start + (id_text(id) + Seq::<char>::empty()));
            }
        }
    }

    /// ` ` and the operand `name`, where there is one.
    fn push_name(&self, out: &mut String, name: ValueId)
        ensures
            final(out)@ == old(out)@ + name_text(self.instructions@, self.inline_constants, name),
    {
        let ghost start = out@;
        if name.0 != INVALID_ID {
            push(out, " ");
            self.push_operand(out, name);
            proof {
                assert(out@ =~= start + (" "@ + operand_text(self.instructions@, self.inline_constants, name)));
            }
        } else {
            proof {
                assert(out@ =~= start + Seq::<char>::empty());
            }
        }
    }

    /// A list of operands, joined by `, `.
    fn push_operands(&self, out: &mut String, ids: &Vec<ValueId>)
        ensures
            final(out)@ == old(out)@ + operands_text(self.instructions@, self.inline_constants, ids@),
    {
        let ghost start = out@;
        let mut i: usize = 0;
        while i < ids.len()
            invariant
                i <= ids@.len(),
                out@ == start + operands_text(self.instructions@, self.inline_constants, ids@.take(i as int)),
            decreases ids@.len() - i,
        {
            let ghost before = out@;
            proof {
                assert(ids@.take(i + 1).drop_last() =~= ids@.take(i as int));
                assert(ids@.take(i + 1).last() == ids@[i as int]);
            }
            if i > 0 {
                push(out, ", ");
            }
            self.push_operand(out, ids[i]);
            proof {
                let t = operands_text(self.instructions@, self.inline_constants, ids@.take(i as int));
                let o = operand_text(self.instructions@, self.inline_constants, ids@[i as int]);
                if i > 0 {
                    assert(out@ =~= start + (t + ", "@ + o));
                } else {
                    assert(t =~= Seq::<char>::empty());
                    assert(out@ =~= start + o);
                }
            }
            i = i + 1;
        }
        proof {
            assert(ids@.take(i as int) =~= ids@);
        }
    }

    /// A pass's attachments, each as its resource and the access it is reached at.
    fn push_attachments(&self, out: &mut String, attachments: &Vec<(ValueId, ValueId)>)
        ensures
            final(out)@ == old(out)@ + (" attachments=["@ + attachments_text(
                self.instructions@,
                self.inline_constants,
                attachments@,
            ) + "]"@),
    {
        let ghost start = out@;
        push(out, " attachments=[");
        let ghost head = out@;
        let mut i: usize = 0;
        while i < attachments.len()
            invariant
                i <= attachments@.len(),
                head == start + " attachments=["@,
                out@ == head + attachments_text(self.instructions@, self.inline_constants, attachments@.take(i as int)),
            decreases attachments@.len() - i,
        {
            proof {
                assert(attachments@.take(i + 1).drop_last() =~= attachments@.take(i as int));
                assert(attachments@.take(i + 1).last() == attachments@[i as int]);
            }
            if i > 0 {
                push(out, ", ");
            }
            let (resource, access) = attachments[i];
            self.push_operand(out, resource);
            push(out, ":");
            self.push_operand(out, access);
            proof {
                let t = attachments_text(self.instructions@, self.inline_constants, attachments@.take(i as int));
                let one = operand_text(self.instructions@, self.inline_constants, resource) + ":"@ + operand_text(
                    self.instructions@,
                    self.inline_constants,
                    access,
                );
                if i > 0 {
                    assert(out@ =~= head + (t + ", "@ + one));
                } else {
                    assert(t =~= Seq::<char>::empty());
                    assert(out@ =~= head + one);
                }
            }
            i = i + 1;
        }
        proof {
            assert(attachments@.take(i as int) =~= attachments@);
        }
        push(out, "]");
        proof {
            assert(out@ =~= start + (" attachments=["@ + attachments_text(
                self.instructions@,
                self.inline_constants,
                attachments@,
            ) + "]"@));
        }
    }
}

/// Bytes as a dump writes them: the first sixteen, then ` ..` where there are more.
pub open spec fn bytes_shown(data: Seq<u8>) -> Seq<char> {
    bytes_text(data, if data.len() < 16 { data.len() as int } else { 16 }) + if data.len() > 16 {
        " .."@
    } else {
        Seq::empty()
    }
}

/// The piece of state a state change sets, as a dump writes it.
pub open spec fn change_text(instrs: Seq<(ValueId, IR)>, inline: bool, change: StateChange) -> Seq<char> {
    match change {
        StateChange::PrimitiveTopology(v) => "topology="@ + topology_name(v),
        StateChange::Rasterization(v) => "rasterization={"@ + rasterization_text(v) + "}"@,
        StateChange::DynamicState(v) => "dynamic_state="@ + named_text(v.0, dynamic_names()),
        StateChange::Viewport { index, viewport } => "viewport["@ + decimal(index as nat) + "]="@ + viewport_text(viewport),
        StateChange::Scissor { index, rect } => "scissor["@ + decimal(index as nat) + "]="@ + rect2d_text(rect),
        StateChange::ColorBlend { index, blend } => match index {
            Some(i) => "color_blend["@ + decimal(i as nat) + "]="@ + blend_text(blend),
            None => "color_blend[*]="@ + blend_text(blend),
        },
        StateChange::Depth(depth) => if depth.test_enable {
            "depth={test="@ + compare_op_name(depth.compare_op) + " write="@ + (if depth.write_enable {
                "true"@
            } else {
                "false"@
            }) + "}"@
        } else {
            "depth=off"@
        },
        StateChange::PushConstants { offset, data } => "push_constants["@ + decimal(offset as nat) + ".."@ + decimal(
            (offset + data@.len() % 0x1_0000_0000) as nat,
        ) + "]="@ + bytes_shown(data@),
        StateChange::PushConstantsFrom { offset, size, source } => "push_constants["@ + decimal(offset as nat) + ".."@
            + decimal((offset + size) as nat) + "]="@ + operand_text(instrs, inline, source),
        StateChange::PushConstantAddress { offset, buffer } => "push_constants["@ + decimal(offset as nat) + ".."@
            + decimal((offset + 8) as nat) + "]=address "@ + operand_text(instrs, inline, buffer),
    }
}

/// The piece of state a state change sets.
fn push_change(out: &mut String, p: &Symbols, change: &StateChange)
    ensures
        final(out)@ == old(out)@ + change_text(p.instructions@, p.inline_constants, *change),
{
    let ghost start = out@;
    match change {
        StateChange::PrimitiveTopology(v) => {
            push(out, "topology=");
            push(out, topology_text(*v).as_str());
        },
        StateChange::Rasterization(v) => {
            push(out, "rasterization={");
            push_rasterization(out, v);
            push(out, "}");
        },
        StateChange::DynamicState(v) => {
            push(out, "dynamic_state=");
            push_dynamic(out, v.0);
        },
        StateChange::Viewport { index, viewport } => {
            push(out, "viewport[");
            push_decimal(out, *index as u64);
            push(out, "]=");
            push_viewport(out, viewport);
        },
        StateChange::Scissor { index, rect } => {
            push(out, "scissor[");
            push_decimal(out, *index as u64);
            push(out, "]=");
            push_rect2d(out, rect);
        },
        StateChange::ColorBlend { index, blend } => {
            match index {
                Some(i) => {
                    push(out, "color_blend[");
                    push_decimal(out, *i as u64);
                    push(out, "]=");
                },
                None => push(out, "color_blend[*]="),
            }
            push_blend(out, blend);
        },
        StateChange::Depth(depth) => {
            if depth.test_enable {
                push(out, "depth={test=");
                push(out, compare_op_text(depth.compare_op).as_str());
                push(out, " write=");
                push(out, if depth.write_enable { "true" } else { "false" });
                push(out, "}");
            } else {
                push(out, "depth=off");
            }
        },
        StateChange::PushConstants { offset, data } => {
            push(out, "push_constants[");
            push_decimal(out, *offset as u64);
            push(out, "..");
            push_decimal(out, (*offset as u64) + (data.len() as u64 % 0x1_0000_0000));
            push(out, "]=");
            push_bytes(out, data);
        },
        StateChange::PushConstantsFrom { offset, size, source } => {
            push(out, "push_constants[");
            push_decimal(out, *offset as u64);
            push(out, "..");
            push_decimal(out, (*offset as u64) + (*size as u64));
            push(out, "]=");
            p.push_operand(out, *source);
        },
        StateChange::PushConstantAddress { offset, buffer } => {
            push(out, "push_constants[");
            push_decimal(out, *offset as u64);
            push(out, "..");
            push_decimal(out, (*offset as u64) + 8);
            push(out, "]=address ");
            p.push_operand(out, *buffer);
        },
    }
    proof {
        assert(out@ =~= start + change_text(p.instructions@, p.inline_constants, *change));
    }
}

/// The comment a dump writes after a draw, a draw of indices or an opaque call: the state it
/// runs with; after a dispatch given push constants: their range.
pub open spec fn draw_state_of(ir: IR) -> Option<Seq<char>> {
    match ir {
        IR::Draw { state, dynamic, .. } | IR::DrawIndexed { state, dynamic, .. } | IR::CallOpaque { state, dynamic, .. } =>
            Some(draw_state_spec(state, dynamic)),
        IR::Dispatch { push_constants, .. } => if push_constants.data@.len() == 0 {
            None
        } else {
            Some(push_constants_text(push_constants))
        },
        _ => None,
    }
}

/// An operand of a line, as [`operand_text`] writes it.
pub open spec fn opnd(i: Seq<(ValueId, IR)>, l: bool, x: ValueId) -> Seq<char> {
    operand_text(i, l, x)
}

/// The operand `x` is the constant `v`.
pub open spec fn holds_u32(i: Seq<(ValueId, IR)>, x: ValueId, v: u32) -> bool {
    constant_of(i, x) == Some(Constant::U32(v))
}

/// `text` where `cond` holds, nothing otherwise.
pub open spec fn when(cond: bool, text: Seq<char>) -> Seq<char> {
    if cond {
        text
    } else {
        Seq::empty()
    }
}

/// The text of each buffer of a vertex buffer bind, by position.
pub open spec fn vertex_buffer_fn(i: Seq<(ValueId, IR)>, l: bool, buffers: Seq<ValueId>, offsets: Seq<u64>) -> spec_fn(int) -> Seq<char> {
    |k: int| vertex_buffer_text(i, l, buffers, offsets, k)
}

/// The text of each incoming value of a phi, by position.
pub open spec fn incoming_fn(i: Seq<(ValueId, IR)>, l: bool, incoming: Seq<(ValueId, LabelId)>) -> spec_fn(int) -> Seq<char> {
    |k: int| incoming_text(i, l, incoming, k)
}

/// A vertex buffer bind's `k`-th buffer: the operand, and `@` and its offset where that is not 0.
pub open spec fn vertex_buffer_text(i: Seq<(ValueId, IR)>, l: bool, buffers: Seq<ValueId>, offsets: Seq<u64>, k: int) -> Seq<char> {
    let offset = if k < offsets.len() { offsets[k] } else { 0 };
    opnd(i, l, buffers[k]) + when(offset != 0, "@"@ + decimal(offset as nat))
}

/// A phi's `k`-th incoming value and the block it comes from.
pub open spec fn incoming_text(i: Seq<(ValueId, IR)>, l: bool, incoming: Seq<(ValueId, LabelId)>, k: int) -> Seq<char> {
    opnd(i, l, incoming[k].0) + " from "@ + "label "@ + decimal(incoming[k].1.0 as nat)
}

/// The pipeline a draw or dispatch names.
pub open spec fn pipeline_text(pipeline: PipelineId) -> Seq<char> {
    if pipeline.0 != INVALID_ID {
        "pipeline=#"@ + decimal(pipeline.0 as nat)
    } else {
        "pipeline=none"@
    }
}

/// Which part of [`line_text`] writes `ir`.
pub open spec fn line_group(ir: IR) -> int {
    match ir {
        IR::Type(_) | IR::Constant(_) | IR::Variable { .. } | IR::Array { .. } | IR::Index { .. }
        | IR::ConstructBuffer { .. } | IR::ConstructImage { .. } => 0,
        IR::AcquireNextImage { .. } | IR::SwapchainImage { .. } | IR::Acquire { .. } | IR::Release { .. } | IR::Clear {
            ..
        } | IR::Blit { .. } | IR::CopyBufferToImage { .. } | IR::BeginRendering { .. } | IR::BindPipeline { .. } => 1,
        IR::BindVertexBuffers { .. } | IR::BindIndexBuffer { .. } | IR::WriteDescriptor { .. } | IR::SetState { .. }
        | IR::Draw { .. } | IR::DrawIndexed { .. } | IR::CallOpaque { .. } | IR::EndRendering { .. } | IR::BeginCompute {
            ..
        } => 2,
        _ => 3,
    }
}

/// How an image declaration begins: its name, extent, format, sample count and view type.
pub open spec fn image_head(i: Seq<(ValueId, IR)>, l: bool, ir: IR) -> Seq<char> {
    match ir {
        IR::ConstructImage { extent, format, samples, view_type, name, .. } => "image"@ + name_text(i, l, name) + when(
            extent.0 != INVALID_ID,
            " "@ + opnd(i, l, extent),
        ) + " "@ + format_name(format) + when(samples != SAMPLE_COUNT_1, " samples="@ + decimal(samples as nat)) + when(
            view_type != VIEW_TYPE_2D,
            " view_type="@ + view_type_name(view_type),
        ),
        _ => Seq::empty(),
    }
}

/// The levels and layers of an image declaration, where they are not the first one alone.
pub open spec fn image_ranges(i: Seq<(ValueId, IR)>, l: bool, ir: IR) -> Seq<char> {
    match ir {
        IR::ConstructImage { base_level, level_count, base_layer, layer_count, .. } => when(
            !(holds_u32(i, base_level, 0) && holds_u32(i, level_count, 1)),
            " base_level="@ + opnd(i, l, base_level) + " level_count="@ + opnd(i, l, level_count),
        ) + when(
            !(holds_u32(i, base_layer, 0) && holds_u32(i, layer_count, 1)),
            " base_layer="@ + opnd(i, l, base_layer) + " layer_count="@ + opnd(i, l, layer_count),
        ),
        _ => Seq::empty(),
    }
}

/// How an image declaration ends: its usage, its layout, and whether it is bound, transient
/// or which handles it has.
pub open spec fn image_tail(b: Seq<ValueId>, ir: IR, id: ValueId) -> Seq<char> {
    match ir {
        IR::ConstructImage { image, image_view, usage, initial_layout, .. } => " usage="@ + named_text(usage, usage_names())
            + " layout="@ + trimmed(layout_name(initial_layout), "_OPTIMAL"@) + if b.contains(id) {
            " bound"@
        } else if image.handle == 0 {
            " transient"@
        } else {
            " handle="@ + image_handle_name(image.handle) + " view="@ + image_view_handle_name(image_view)
        },
        _ => Seq::empty(),
    }
}

/// The line a dump writes for a value or resource declaration.
pub open spec fn value_line(i: Seq<(ValueId, IR)>, l: bool, b: Seq<ValueId>, ir: IR, id: ValueId) -> Seq<char> {
    match ir {
        IR::Type(ty) => match ty {
            Type::Image { format, samples } => "type image "@ + format_name(format) + " samples="@ + decimal(samples as nat),
            Type::Buffer => "type buffer"@,
        },
        IR::Constant(c) => "const "@ + constant_text(c),
        IR::Variable { slot, kind, name } => "var"@ + name_text(i, l, name) + " "@ + kind_text(kind) + " slot="@ + decimal(
            slot as nat,
        ),
        IR::Array { elements, .. } => "array ["@ + operands_text(i, l, elements@) + "]"@,
        IR::Index { array, index } => "index "@ + opnd(i, l, array) + "["@ + opnd(i, l, index) + "]"@,
        IR::ConstructBuffer { buffer, size, usage, location, initial_access, name } => "buffer"@ + name_text(i, l, name)
            + when(size.0 != INVALID_ID, " size="@ + opnd(i, l, size)) + " usage="@ + buffer_usage_name(usage) + " "@
            + location_text(location) + " resting="@ + opnd(i, l, initial_access) + if b.contains(id) {
            " bound"@
        } else if buffer.handle == 0 {
            " transient"@
        } else {
            " handle="@ + buffer_handle_name(buffer.handle)
        },
        IR::ConstructImage {
            image,
            image_view,
            view_type,
            extent,
            format,
            samples,
            base_level,
            level_count,
            base_layer,
            layer_count,
            usage,
            initial_layout,
            name,
        } => image_head(i, l, ir) + image_ranges(i, l, ir) + image_tail(b, ir, id),
        _ => Seq::empty(),
    }
}

/// Which part of a buffer a copy into an image takes, and where in the image it goes: all of
/// it, or the offset, the image offset and extent, and the mip level.
pub open spec fn region_text(region: Option<BufferImageCopy>) -> Seq<char> {
    match region {
        None => " whole"@,
        Some(region) => " buffer_offset="@ + decimal(region.buffer_offset as nat) + " image="@ + signed_text(
            region.image_offset.x as int,
        ) + ","@ + signed_text(region.image_offset.y as int) + " "@ + decimal(region.image_extent.width as nat) + "x"@
            + decimal(region.image_extent.height as nat) + when(
            region.image_extent.depth != 1,
            "x"@ + decimal(region.image_extent.depth as nat),
        ) + when(region.mip_level != 0, " mip="@ + decimal(region.mip_level as nat)),
    }
}

/// The line a dump writes for an acquisition, a transfer, the opening of a rendering pass or
/// a pipeline bind.
pub open spec fn transfer_line(i: Seq<(ValueId, IR)>, l: bool, ir: IR) -> Seq<char> {
    match ir {
        IR::AcquireNextImage { swapchain } => "acquire_next_image "@ + opnd(i, l, swapchain),
        IR::SwapchainImage { swapchain, acquire, format, samples } => "swapchain_image "@ + opnd(i, l, swapchain) + "["@
            + opnd(i, l, acquire) + "] "@ + format_name(format) + when(
            samples != SAMPLE_COUNT_1,
            " samples="@ + decimal(samples as nat),
        ),
        IR::Acquire { resource, access } => "acquire "@ + opnd(i, l, resource) + " access="@ + opnd(i, l, access),
        IR::Release { resource, access, dst_domain } => "release "@ + opnd(i, l, resource) + " access="@ + opnd(i, l, access)
            + " domain="@ + named_text(dst_domain, domain_names()),
        IR::Clear { attachment, color } => "clear "@ + opnd(i, l, attachment) + " color="@ + opnd(i, l, color),
        IR::Blit { src, dst, filter } => "blit "@ + opnd(i, l, src) + " -> "@ + opnd(i, l, dst) + " filter="@ + filter_name(
            filter,
        ),
        IR::CopyBufferToImage { buffer, image, region } => "copy_buffer_to_image "@ + opnd(i, l, buffer) + " -> "@ + opnd(
            i,
            l,
            image,
        ) + region_text(region),
        IR::BeginRendering { attachments, render_area, name } => "begin_rendering"@ + name_text(i, l, name) + (
        " attachments=["@ + attachments_text(i, l, attachments@) + "]"@) + when(
            render_area.0 != INVALID_ID,
            " area="@ + opnd(i, l, render_area),
        ),
        IR::BindPipeline { pipeline, bind_point, .. } => "bind_pipeline #"@ + decimal(pipeline.0 as nat) + " "@
            + bind_point_name(bind_point),
        _ => Seq::empty(),
    }
}

/// The line a dump writes for a command recorded in a pass.
pub open spec fn command_line(i: Seq<(ValueId, IR)>, l: bool, ir: IR) -> Seq<char> {
    match ir {
        IR::BindVertexBuffers { first_binding, buffers, offsets, .. } => "bind_vertex_buffers first="@ + decimal(
            first_binding as nat,
        ) + " buffers=["@ + joined(
            Seq::new(buffers@.len(), vertex_buffer_fn(i, l, buffers@, offsets@)),
        ) + "]"@,
        IR::BindIndexBuffer { buffer, offset, index_type, .. } => "bind_index_buffer "@ + opnd(i, l, buffer) + " type="@
            + index_type_name(index_type) + when(offset != 0, " offset="@ + decimal(offset as nat)),
        IR::WriteDescriptor { set, binding, descriptor, access, .. } => "write_descriptor set="@ + decimal(set as nat)
            + " binding="@ + decimal(binding as nat) + " "@ + (match descriptor {
            Descriptor::SampledImage { image } => "sampled_image "@ + opnd(i, l, image),
            Descriptor::CombinedImageSampler { image, sampler } => "combined_image_sampler "@ + opnd(i, l, image)
                + " sampler="@ + sampler_handle_name(sampler),
        }) + " access="@ + opnd(i, l, access),
        IR::SetState { change, .. } => "set_state "@ + change_text(i, l, change),
        IR::Draw { vertex_count, instance_count, first_vertex, first_instance, pipeline, .. } => "draw verts="@ + opnd(
            i,
            l,
            vertex_count,
        ) + " insts="@ + opnd(i, l, instance_count) + when(
            !holds_u32(i, first_vertex, 0),
            " first_vert="@ + opnd(i, l, first_vertex),
        ) + when(!holds_u32(i, first_instance, 0), " first_inst="@ + opnd(i, l, first_instance)) + " "@ + pipeline_text(
            pipeline,
        ),
        IR::DrawIndexed { index_count, instance_count, first_index, vertex_offset, first_instance, pipeline, .. } =>
            "draw_indexed indices="@ + opnd(i, l, index_count) + " insts="@ + opnd(i, l, instance_count) + when(
            !holds_u32(i, first_index, 0),
            " first_index="@ + opnd(i, l, first_index),
        ) + " vertex_offset="@ + opnd(i, l, vertex_offset) + when(
            !holds_u32(i, first_instance, 0),
            " first_inst="@ + opnd(i, l, first_instance),
        ) + " "@ + pipeline_text(pipeline),
        IR::CallOpaque { body, pipeline, .. } => "call.opaque body="@ + opnd(i, l, body) + " "@ + pipeline_text(pipeline),
        IR::EndRendering { .. } => "end_rendering"@,
        IR::BeginCompute { attachments, name } => "begin_compute"@ + name_text(i, l, name) + (" attachments=["@
            + attachments_text(i, l, attachments@) + "]"@),
        _ => Seq::empty(),
    }
}

/// The line a dump writes for a dispatch, the end of a compute pass, control flow or a barrier.
pub open spec fn control_line(i: Seq<(ValueId, IR)>, l: bool, ir: IR) -> Seq<char> {
    match ir {
        IR::Dispatch { size, pipeline, .. } => (match size {
            DispatchSize::Groups { x, y, z } => "dispatch groups_x="@ + opnd(i, l, x) + " groups_y="@ + opnd(i, l, y)
                + " groups_z="@ + opnd(i, l, z),
            DispatchSize::Invocations { x, y, z } => "dispatch invocations_x="@ + opnd(i, l, x) + " invocations_y="@
                + opnd(i, l, y) + " invocations_z="@ + opnd(i, l, z),
            DispatchSize::InvocationsPerPixel { image, scale_x, scale_y, scale_z } => "dispatch invocations_per_pixel "@
                + opnd(i, l, image) + when(
                !(scale_x == ONE_F32_BITS && scale_y == ONE_F32_BITS && scale_z == ONE_F32_BITS),
                " scale=["@ + bits_text(scale_x) + ", "@ + bits_text(scale_y) + ", "@ + bits_text(scale_z) + "]"@,
            ),
            DispatchSize::InvocationsPerElement { buffer, element_size, scale } => "dispatch invocations_per_element "@
                + opnd(i, l, buffer) + " element_size="@ + decimal(element_size as nat) + when(
                scale != ONE_F32_BITS,
                " scale="@ + bits_text(scale),
            ),
            DispatchSize::Indirect { buffer, offset } => "dispatch.indirect "@ + opnd(i, l, buffer) + when(
                offset != 0,
                " offset="@ + decimal(offset as nat),
            ),
        }) + " "@ + pipeline_text(pipeline),
        IR::EndCompute { .. } => "end_compute"@,
        IR::Label { label } => "label "@ + decimal(label.0 as nat) + ":"@,
        IR::SelectionMerge { merge } => "selection_merge "@ + ("label "@ + decimal(merge.0 as nat)),
        IR::Branch { target } => "branch "@ + ("label "@ + decimal(target.0 as nat)),
        IR::BranchConditional { condition, true_label, false_label } => "branch_cond "@ + opnd(i, l, condition) + " -> "@
            + ("label "@ + decimal(true_label.0 as nat)) + ", "@ + ("label "@ + decimal(false_label.0 as nat)),
        IR::Return => "return"@,
        IR::Phi { incoming } => "phi ["@ + joined(Seq::new(incoming@.len(), incoming_fn(i, l, incoming@)))
            + "]"@,
        IR::MemoryBarrier { src_access, dst_access } => "barrier.memory "@ + opnd(i, l, src_access) + " -> "@ + opnd(
            i,
            l,
            dst_access,
        ),
        IR::ImageBarrier { src_access, dst_access, old_layout, new_layout, value } => "barrier.image "@ + opnd(i, l, value)
            + " "@ + trimmed(layout_name(old_layout), "_OPTIMAL"@) + " -> "@ + trimmed(layout_name(new_layout), "_OPTIMAL"@)
            + " access="@ + opnd(i, l, src_access) + " -> "@ + opnd(i, l, dst_access),
        _ => Seq::empty(),
    }
}

/// The line a dump writes for the instruction `ir` defining `id`, reading its operands out of
/// the instructions `i`, writing constants in place where `l` holds, and marking the resources
/// `b` lists as bound.
pub open spec fn line_text(i: Seq<(ValueId, IR)>, l: bool, b: Seq<ValueId>, ir: IR, id: ValueId) -> Seq<char> {
    if line_group(ir) == 0 {
        value_line(i, l, b, ir, id)
    } else if line_group(ir) == 1 {
        transfer_line(i, l, ir)
    } else if line_group(ir) == 2 {
        command_line(i, l, ir)
    } else {
        control_line(i, l, ir)
    }
}

/// Writes the line of a type instruction.
#[verifier::spinoff_prover]
#[verifier::rlimit(100)]
fn value_line_of_type(ir: &IR, p: &Symbols, id: ValueId, out: &mut String)
    requires
        *ir is Type,
    ensures
        final(out)@ == old(out)@ + value_line(p.instructions@, p.inline_constants, p.bound@, *ir, id),
{
    let ghost start = out@;
    match ir {
        IR::Type(ty) => match ty {
            Type::Image { format, samples } => {
                push(out, "type image ");
                push(out, format_text(*format).as_str());
                push(out, " samples=");
                push_decimal(out, *samples as u64);
            },
            Type::Buffer => push(out, "type buffer"),
        },
        _ => {},
    }
    proof {
        assert(out@ =~= start + value_line(p.instructions@, p.inline_constants, p.bound@, *ir, id));
    }
}

/// Writes the line of a constant instruction.
#[verifier::spinoff_prover]
#[verifier::rlimit(100)]
fn value_line_of_constant(ir: &IR, p: &Symbols, id: ValueId, out: &mut String)
    requires
        *ir is Constant,
    ensures
        final(out)@ == old(out)@ + value_line(p.instructions@, p.inline_constants, p.bound@, *ir, id),
{
    let ghost start = out@;
    match ir {
        IR::Constant(constant) => {
            push(out, "const ");
            push_constant(out, constant);
            proof {
                assert(out@ =~= start + value_line(p.instructions@, p.inline_constants, p.bound@, *ir, id));
            }
        },
        _ => {},
    }
    proof {
        assert(out@ =~= start + value_line(p.instructions@, p.inline_constants, p.bound@, *ir, id));
    }
}

/// Writes the line of a variable instruction.
#[verifier::spinoff_prover]
#[verifier::rlimit(100)]
fn value_line_of_variable(ir: &IR, p: &Symbols, id: ValueId, out: &mut String)
    requires
        *ir is Variable,
    ensures
        final(out)@ == old(out)@ + value_line(p.instructions@, p.inline_constants, p.bound@, *ir, id),
{
    let ghost start = out@;
    match ir {
        IR::Variable { slot, kind, name } => {
            push(out, "var");
            p.push_name(out, *name);
            push(out, " ");
            push_kind(out, *kind);
            push(out, " slot=");
            push_decimal(out, *slot as u64);
            proof {
                assert(out@ =~= start + value_line(p.instructions@, p.inline_constants, p.bound@, *ir, id));
            }
        },
        _ => {},
    }
    proof {
        assert(out@ =~= start + value_line(p.instructions@, p.inline_constants, p.bound@, *ir, id));
    }
}

/// Writes the line of an array instruction.
#[verifier::spinoff_prover]
#[verifier::rlimit(100)]
fn value_line_of_array(ir: &IR, p: &Symbols, id: ValueId, out: &mut String)
    requires
        *ir is Array,
    ensures
        final(out)@ == old(out)@ + value_line(p.instructions@, p.inline_constants, p.bound@, *ir, id),
{
    let ghost start = out@;
    match ir {
        IR::Array { elements, .. } => {
            push(out, "array [");
            p.push_operands(out, elements);
            push(out, "]");
            proof {
                assert(out@ =~= start + value_line(p.instructions@, p.inline_constants, p.bound@, *ir, id));
            }
        },
        _ => {},
    }
    proof {
        assert(out@ =~= start + value_line(p.instructions@, p.inline_constants, p.bound@, *ir, id));
    }
}

/// Writes the line of an index instruction.
#[verifier::spinoff_prover]
#[verifier::rlimit(100)]
fn value_line_of_index(ir: &IR, p: &Symbols, id: ValueId, out: &mut String)
    requires
        *ir is Index,
    ensures
        final(out)@ == old(out)@ + value_line(p.instructions@, p.inline_constants, p.bound@, *ir, id),
{
    let ghost start = out@;
    match ir {
        IR::Index { array, index } => {
            push(out, "index ");
            p.push_operand(out, *array);
            push(out, "[");
            p.push_operand(out, *index);
            push(out, "]");
            proof {
                assert(out@ =~= start + value_line(p.instructions@, p.inline_constants, p.bound@, *ir, id));
            }
        },
        _ => {},
    }
    proof {
        assert(out@ =~= start + value_line(p.instructions@, p.inline_constants, p.bound@, *ir, id));
    }
}

/// Writes the line of a construct buffer instruction.
#[verifier::spinoff_prover]
#[verifier::rlimit(100)]
fn value_line_of_construct_buffer(ir: &IR, p: &Symbols, id: ValueId, out: &mut String)
    requires
        *ir is ConstructBuffer,
    ensures
        final(out)@ == old(out)@ + value_line(p.instructions@, p.inline_constants, p.bound@, *ir, id),
{
    let ghost start = out@;
    match ir {
        IR::ConstructBuffer { buffer, size, usage, location, initial_access, name } => {
            push(out, "buffer");
            p.push_name(out, *name);
            if size.0 != INVALID_ID {
                push(out, " size=");
                p.push_operand(out, *size);
            }
            push(out, " usage=");
            push(out, buffer_usage_text(*usage).as_str());
            push(out, " ");
            push_location(out, *location);
            push(out, " resting=");
            p.push_operand(out, *initial_access);
            if p.is_bound(id) {
                push(out, " bound");
            } else if buffer.handle == 0 {
                push(out, " transient");
            } else {
                push(out, " handle=");
                push(out, buffer_handle_text(buffer.handle).as_str());
            }
            proof {
                assert(out@ =~= start + value_line(p.instructions@, p.inline_constants, p.bound@, *ir, id));
            }
        },
        _ => {},
    }
    proof {
        assert(out@ =~= start + value_line(p.instructions@, p.inline_constants, p.bound@, *ir, id));
    }
}

/// How an image declaration begins.
fn push_image_head(ir: &IR, p: &Symbols, out: &mut String)
    requires
        *ir is ConstructImage,
    ensures
        final(out)@ == old(out)@ + image_head(p.instructions@, p.inline_constants, *ir),
{
    let ghost start = out@;
    if let IR::ConstructImage { extent, format, samples, view_type, name, .. } = ir {
        push(out, "image");
        p.push_name(out, *name);
        if extent.0 != INVALID_ID {
            push(out, " ");
            p.push_operand(out, *extent);
        }
        push(out, " ");
        push(out, format_text(*format).as_str());
        if *samples != SAMPLE_COUNT_1 {
            push(out, " samples=");
            push_decimal(out, *samples as u64);
        }
        if *view_type != VIEW_TYPE_2D {
            push(out, " view_type=");
            push(out, view_type_text(*view_type).as_str());
        }
    }
    proof {
        assert(out@ =~= start + image_head(p.instructions@, p.inline_constants, *ir));
    }
}

/// The levels and layers of an image declaration.
fn push_image_ranges(ir: &IR, p: &Symbols, out: &mut String)
    requires
        *ir is ConstructImage,
    ensures
        final(out)@ == old(out)@ + image_ranges(p.instructions@, p.inline_constants, *ir),
{
    let ghost start = out@;
    if let IR::ConstructImage { base_level, level_count, base_layer, layer_count, .. } = ir {
        if !(p.is_u32(*base_level, 0) && p.is_u32(*level_count, 1)) {
            push(out, " base_level=");
            p.push_operand(out, *base_level);
            push(out, " level_count=");
            p.push_operand(out, *level_count);
        }
        let ghost levels = out@;
        proof {
            assert(levels =~= start + when(
                !(holds_u32(p.instructions@, *base_level, 0) && holds_u32(p.instructions@, *level_count, 1)),
                " base_level="@ + opnd(p.instructions@, p.inline_constants, *base_level) + " level_count="@ + opnd(
                    p.instructions@,
                    p.inline_constants,
                    *level_count,
                ),
            ));
        }
        if !(p.is_u32(*base_layer, 0) && p.is_u32(*layer_count, 1)) {
            push(out, " base_layer=");
            p.push_operand(out, *base_layer);
            push(out, " layer_count=");
            p.push_operand(out, *layer_count);
        }
    }
    proof {
        assert(out@ =~= start + image_ranges(p.instructions@, p.inline_constants, *ir));
    }
}

/// How an image declaration ends.
fn push_image_tail(ir: &IR, p: &Symbols, id: ValueId, out: &mut String)
    requires
        *ir is ConstructImage,
    ensures
        final(out)@ == old(out)@ + image_tail(p.bound@, *ir, id),
{
    let ghost start = out@;
    if let IR::ConstructImage { image, image_view, usage, initial_layout, .. } = ir {
        push(out, " usage=");
        push_usage(out, *usage);
        push(out, " layout=");
        push_layout(out, *initial_layout);
        if p.is_bound(id) {
            push(out, " bound");
        } else if image.handle == 0 {
            push(out, " transient");
        } else {
            push(out, " handle=");
            push(out, image_handle_text(image.handle).as_str());
            push(out, " view=");
            push(out, image_view_handle_text(*image_view).as_str());
        }
    }
    proof {
        assert(out@ =~= start + image_tail(p.bound@, *ir, id));
    }
}

/// Writes the line of a construct image instruction.
#[verifier::spinoff_prover]
fn value_line_of_construct_image(ir: &IR, p: &Symbols, id: ValueId, out: &mut String)
    requires
        *ir is ConstructImage,
    ensures
        final(out)@ == old(out)@ + value_line(p.instructions@, p.inline_constants, p.bound@, *ir, id),
{
    let ghost start = out@;
    push_image_head(ir, p, out);
    push_image_ranges(ir, p, out);
    push_image_tail(ir, p, id, out);
    proof {
        assert(out@ =~= start + (image_head(p.instructions@, p.inline_constants, *ir) + image_ranges(
            p.instructions@,
            p.inline_constants,
            *ir,
        ) + image_tail(p.bound@, *ir, id)));
    }
}

/// Writes the line of a value or resource declaration.
#[verifier::spinoff_prover]
#[verifier::rlimit(100)]
fn value_line_of(ir: &IR, p: &Symbols, id: ValueId, out: &mut String)
    requires
        line_group(*ir) == 0,
    ensures
        final(out)@ == old(out)@ + value_line(p.instructions@, p.inline_constants, p.bound@, *ir, id),
{
    let ghost start = out@;
    match ir {
        IR::Type(_) => value_line_of_type(ir, p, id, out),
        IR::Constant(_) => value_line_of_constant(ir, p, id, out),
        IR::Variable { .. } => value_line_of_variable(ir, p, id, out),
        IR::Array { .. } => value_line_of_array(ir, p, id, out),
        IR::Index { .. } => value_line_of_index(ir, p, id, out),
        IR::ConstructBuffer { .. } => value_line_of_construct_buffer(ir, p, id, out),
        IR::ConstructImage { .. } => value_line_of_construct_image(ir, p, id, out),
        _ => {},
    }
    proof {
        assert(out@ =~= start + value_line(p.instructions@, p.inline_constants, p.bound@, *ir, id));
    }
}

/// Writes the line of an acquire next image instruction.
#[verifier::spinoff_prover]
#[verifier::rlimit(100)]
fn transfer_line_of_acquire_next_image(ir: &IR, p: &Symbols, id: ValueId, out: &mut String)
    requires
        *ir is AcquireNextImage,
    ensures
        final(out)@ == old(out)@ + transfer_line(p.instructions@, p.inline_constants, *ir),
{
    let ghost start = out@;
    match ir {
        IR::AcquireNextImage { swapchain } => {
            push(out, "acquire_next_image ");
            p.push_operand(out, *swapchain);
            proof {
                assert(out@ =~= start + transfer_line(p.instructions@, p.inline_constants, *ir));
            }
        },
        _ => {},
    }
    proof {
        assert(out@ =~= start + transfer_line(p.instructions@, p.inline_constants, *ir));
    }
}

/// Writes the line of a swapchain image instruction.
#[verifier::spinoff_prover]
#[verifier::rlimit(100)]
fn transfer_line_of_swapchain_image(ir: &IR, p: &Symbols, id: ValueId, out: &mut String)
    requires
        *ir is SwapchainImage,
    ensures
        final(out)@ == old(out)@ + transfer_line(p.instructions@, p.inline_constants, *ir),
{
    let ghost start = out@;
    match ir {
        IR::SwapchainImage { swapchain, acquire, format, samples } => {
            push(out, "swapchain_image ");
            p.push_operand(out, *swapchain);
            push(out, "[");
            p.push_operand(out, *acquire);
            push(out, "] ");
            push(out, format_text(*format).as_str());
            if *samples != SAMPLE_COUNT_1 {
                push(out, " samples=");
                push_decimal(out, *samples as u64);
            }
            proof {
                assert(out@ =~= start + transfer_line(p.instructions@, p.inline_constants, *ir));
            }
        },
        _ => {},
    }
    proof {
        assert(out@ =~= start + transfer_line(p.instructions@, p.inline_constants, *ir));
    }
}

/// Writes the line of an acquire instruction.
#[verifier::spinoff_prover]
#[verifier::rlimit(100)]
fn transfer_line_of_acquire(ir: &IR, p: &Symbols, id: ValueId, out: &mut String)
    requires
        *ir is Acquire,
    ensures
        final(out)@ == old(out)@ + transfer_line(p.instructions@, p.inline_constants, *ir),
{
    let ghost start = out@;
    match ir {
        IR::Acquire { resource, access } => {
            push(out, "acquire ");
            p.push_operand(out, *resource);
            push(out, " access=");
            p.push_operand(out, *access);
            proof {
                assert(out@ =~= start + transfer_line(p.instructions@, p.inline_constants, *ir));
            }
        },
        _ => {},
    }
    proof {
        assert(out@ =~= start + transfer_line(p.instructions@, p.inline_constants, *ir));
    }
}

/// Writes the line of a release instruction.
#[verifier::spinoff_prover]
#[verifier::rlimit(100)]
fn transfer_line_of_release(ir: &IR, p: &Symbols, id: ValueId, out: &mut String)
    requires
        *ir is Release,
    ensures
        final(out)@ == old(out)@ + transfer_line(p.instructions@, p.inline_constants, *ir),
{
    let ghost start = out@;
    match ir {
        IR::Release { resource, access, dst_domain } => {
            push(out, "release ");
            p.push_operand(out, *resource);
            push(out, " access=");
            p.push_operand(out, *access);
            push(out, " domain=");
            push_domain(out, *dst_domain);
            proof {
                assert(out@ =~= start + transfer_line(p.instructions@, p.inline_constants, *ir));
            }
        },
        _ => {},
    }
    proof {
        assert(out@ =~= start + transfer_line(p.instructions@, p.inline_constants, *ir));
    }
}

/// Writes the line of a clear instruction.
#[verifier::spinoff_prover]
#[verifier::rlimit(100)]
fn transfer_line_of_clear(ir: &IR, p: &Symbols, id: ValueId, out: &mut String)
    requires
        *ir is Clear,
    ensures
        final(out)@ == old(out)@ + transfer_line(p.instructions@, p.inline_constants, *ir),
{
    let ghost start = out@;
    match ir {
        IR::Clear { attachment, color } => {
            push(out, "clear ");
            p.push_operand(out, *attachment);
            push(out, " color=");
            p.push_operand(out, *color);
            proof {
                assert(out@ =~= start + transfer_line(p.instructions@, p.inline_constants, *ir));
            }
        },
        _ => {},
    }
    proof {
        assert(out@ =~= start + transfer_line(p.instructions@, p.inline_constants, *ir));
    }
}

/// Writes the line of a blit instruction.
#[verifier::spinoff_prover]
#[verifier::rlimit(100)]
fn transfer_line_of_blit(ir: &IR, p: &Symbols, id: ValueId, out: &mut String)
    requires
        *ir is Blit,
    ensures
        final(out)@ == old(out)@ + transfer_line(p.instructions@, p.inline_constants, *ir),
{
    let ghost start = out@;
    match ir {
        IR::Blit { src, dst, filter } => {
            push(out, "blit ");
            p.push_operand(out, *src);
            push(out, " -> ");
            p.push_operand(out, *dst);
            push(out, " filter=");
            push(out, filter_text(*filter).as_str());
            proof {
                assert(out@ =~= start + transfer_line(p.instructions@, p.inline_constants, *ir));
            }
        },
        _ => {},
    }
    proof {
        assert(out@ =~= start + transfer_line(p.instructions@, p.inline_constants, *ir));
    }
}

/// Writes the line of a copy buffer to image instruction.
#[verifier::spinoff_prover]
#[verifier::rlimit(100)]
fn transfer_line_of_copy_buffer_to_image(ir: &IR, p: &Symbols, id: ValueId, out: &mut String)
    requires
        *ir is CopyBufferToImage,
    ensures
        final(out)@ == old(out)@ + transfer_line(p.instructions@, p.inline_constants, *ir),
{
    let ghost start = out@;
    match ir {
        IR::CopyBufferToImage { buffer, image, region } => {
            push(out, "copy_buffer_to_image ");
            p.push_operand(out, *buffer);
            push(out, " -> ");
            p.push_operand(out, *image);
            let ghost mid = out@;
            match region {
                None => push(out, " whole"),
                Some(region) => {
                    push(out, " buffer_offset=");
                    push_decimal(out, region.buffer_offset);
                    push(out, " image=");
                    push_signed(out, region.image_offset.x as i64);
                    push(out, ",");
                    push_signed(out, region.image_offset.y as i64);
                    push(out, " ");
                    push_decimal(out, region.image_extent.width as u64);
                    push(out, "x");
                    push_decimal(out, region.image_extent.height as u64);
                    if region.image_extent.depth != 1 {
                        push(out, "x");
                        push_decimal(out, region.image_extent.depth as u64);
                    }
                    if region.mip_level != 0 {
                        push(out, " mip=");
                        push_decimal(out, region.mip_level as u64);
                    }
                },
            }
            proof {
                assert(out@ =~= mid + region_text(*region));
                assert(out@ =~= start + transfer_line(p.instructions@, p.inline_constants, *ir));
            }
        },
        _ => {},
    }
    proof {
        assert(out@ =~= start + transfer_line(p.instructions@, p.inline_constants, *ir));
    }
}

/// Writes the line of a begin rendering instruction.
#[verifier::spinoff_prover]
#[verifier::rlimit(100)]
fn transfer_line_of_begin_rendering(ir: &IR, p: &Symbols, id: ValueId, out: &mut String)
    requires
        *ir is BeginRendering,
    ensures
        final(out)@ == old(out)@ + transfer_line(p.instructions@, p.inline_constants, *ir),
{
    let ghost start = out@;
    match ir {
        IR::BeginRendering { attachments, render_area, name } => {
            push(out, "begin_rendering");
            p.push_name(out, *name);
            p.push_attachments(out, attachments);
            if render_area.0 != INVALID_ID {
                push(out, " area=");
                p.push_operand(out, *render_area);
            }
            proof {
                assert(out@ =~= start + transfer_line(p.instructions@, p.inline_constants, *ir));
            }
        },
        _ => {},
    }
    proof {
        assert(out@ =~= start + transfer_line(p.instructions@, p.inline_constants, *ir));
    }
}

/// Writes the line of a bind pipeline instruction.
#[verifier::spinoff_prover]
#[verifier::rlimit(100)]
fn transfer_line_of_bind_pipeline(ir: &IR, p: &Symbols, id: ValueId, out: &mut String)
    requires
        *ir is BindPipeline,
    ensures
        final(out)@ == old(out)@ + transfer_line(p.instructions@, p.inline_constants, *ir),
{
    let ghost start = out@;
    match ir {
        IR::BindPipeline { pipeline, bind_point, .. } => {
            push(out, "bind_pipeline #");
            push_decimal(out, pipeline.0 as u64);
            push(out, " ");
            push(out, bind_point_text(*bind_point).as_str());
            proof {
                assert(out@ =~= start + transfer_line(p.instructions@, p.inline_constants, *ir));
            }
        },
        _ => {},
    }
    proof {
        assert(out@ =~= start + transfer_line(p.instructions@, p.inline_constants, *ir));
    }
}

/// Writes the line of an acquisition, a transfer, the opening of a rendering pass or a pipeline bind.
#[verifier::spinoff_prover]
#[verifier::rlimit(100)]
fn transfer_line_of(ir: &IR, p: &Symbols, id: ValueId, out: &mut String)
    requires
        line_group(*ir) == 1,
    ensures
        final(out)@ == old(out)@ + transfer_line(p.instructions@, p.inline_constants, *ir),
{
    let ghost start = out@;
    match ir {
        IR::AcquireNextImage { .. } => transfer_line_of_acquire_next_image(ir, p, id, out),
        IR::SwapchainImage { .. } => transfer_line_of_swapchain_image(ir, p, id, out),
        IR::Acquire { .. } => transfer_line_of_acquire(ir, p, id, out),
        IR::Release { .. } => transfer_line_of_release(ir, p, id, out),
        IR::Clear { .. } => transfer_line_of_clear(ir, p, id, out),
        IR::Blit { .. } => transfer_line_of_blit(ir, p, id, out),
        IR::CopyBufferToImage { .. } => transfer_line_of_copy_buffer_to_image(ir, p, id, out),
        IR::BeginRendering { .. } => transfer_line_of_begin_rendering(ir, p, id, out),
        IR::BindPipeline { .. } => transfer_line_of_bind_pipeline(ir, p, id, out),
        _ => {},
    }
    proof {
        assert(out@ =~= start + transfer_line(p.instructions@, p.inline_constants, *ir));
    }
}

/// Writes the line of a bind vertex buffers instruction.
#[verifier::spinoff_prover]
#[verifier::rlimit(100)]
fn command_line_of_bind_vertex_buffers(ir: &IR, p: &Symbols, id: ValueId, out: &mut String)
    requires
        *ir is BindVertexBuffers,
    ensures
        final(out)@ == old(out)@ + command_line(p.instructions@, p.inline_constants, *ir),
{
    let ghost start = out@;
    match ir {
        IR::BindVertexBuffers { first_binding, buffers, offsets, .. } => {
            push(out, "bind_vertex_buffers first=");
            push_decimal(out, *first_binding as u64);
            push(out, " buffers=[");
            let ghost base = out@;
            let ghost f = vertex_buffer_fn(p.instructions@, p.inline_constants, buffers@, offsets@);
            let mut i: usize = 0;
            while i < buffers.len()
                invariant
                    i <= buffers@.len(),
                    f == vertex_buffer_fn(p.instructions@, p.inline_constants, buffers@, offsets@),
                    out@ == base + joined(Seq::new(i as nat, f)),
                decreases buffers@.len() - i,
            {
                proof {
                    lemma_joined_push(Seq::new(i as nat, f), f(i as int));
                    assert(Seq::new((i + 1) as nat, f) =~= Seq::new(i as nat, f).push(f(i as int)));
                }
                let ghost before = out@;
                if i > 0 {
                    push(out, ", ");
                }
                p.push_operand(out, buffers[i]);
                let offset = if i < offsets.len() { offsets[i] } else { 0 };
                if offset != 0 {
                    push(out, "@");
                    push_decimal(out, offset);
                }
                proof {
                    let t = joined(Seq::new(i as nat, f));
                    assert(t.len() == 0 ==> t =~= Seq::<char>::empty());
                    assert(f(i as int) == vertex_buffer_text(p.instructions@, p.inline_constants, buffers@, offsets@, i as int));
                    assert(out@ =~= base + joined(Seq::new((i + 1) as nat, f)));
                }
                i = i + 1;
            }
            push(out, "]");
            proof {
                assert(out@ =~= start + command_line(p.instructions@, p.inline_constants, *ir));
            }
        },
        _ => {},
    }
    proof {
        assert(out@ =~= start + command_line(p.instructions@, p.inline_constants, *ir));
    }
}

/// Writes the line of a bind index buffer instruction.
#[verifier::spinoff_prover]
#[verifier::rlimit(100)]
fn command_line_of_bind_index_buffer(ir: &IR, p: &Symbols, id: ValueId, out: &mut String)
    requires
        *ir is BindIndexBuffer,
    ensures
        final(out)@ == old(out)@ + command_line(p.instructions@, p.inline_constants, *ir),
{
    let ghost start = out@;
    match ir {
        IR::BindIndexBuffer { buffer, offset, index_type, .. } => {
            push(out, "bind_index_buffer ");
            p.push_operand(out, *buffer);
            push(out, " type=");
            push(out, index_type_text(*index_type).as_str());
            if *offset != 0 {
                push(out, " offset=");
                push_decimal(out, *offset);
            }
            proof {
                assert(out@ =~= start + command_line(p.instructions@, p.inline_constants, *ir));
            }
        },
        _ => {},
    }
    proof {
        assert(out@ =~= start + command_line(p.instructions@, p.inline_constants, *ir));
    }
}

/// Writes the line of a write descriptor instruction.
#[verifier::spinoff_prover]
#[verifier::rlimit(100)]
fn command_line_of_write_descriptor(ir: &IR, p: &Symbols, id: ValueId, out: &mut String)
    requires
        *ir is WriteDescriptor,
    ensures
        final(out)@ == old(out)@ + command_line(p.instructions@, p.inline_constants, *ir),
{
    let ghost start = out@;
    match ir {
        IR::WriteDescriptor { set, binding, descriptor, access, .. } => {
            push(out, "write_descriptor set=");
            push_decimal(out, *set as u64);
            push(out, " binding=");
            push_decimal(out, *binding as u64);
            push(out, " ");
            match descriptor {
                Descriptor::SampledImage { image } => {
                    push(out, "sampled_image ");
                    p.push_operand(out, *image);
                },
                Descriptor::CombinedImageSampler { image, sampler } => {
                    push(out, "combined_image_sampler ");
                    p.push_operand(out, *image);
                    push(out, " sampler=");
                    push(out, sampler_handle_text(*sampler).as_str());
                },
            }
            push(out, " access=");
            p.push_operand(out, *access);
            proof {
                assert(out@ =~= start + command_line(p.instructions@, p.inline_constants, *ir));
            }
        },
        _ => {},
    }
    proof {
        assert(out@ =~= start + command_line(p.instructions@, p.inline_constants, *ir));
    }
}

/// Writes the line of a set state instruction.
#[verifier::spinoff_prover]
#[verifier::rlimit(100)]
fn command_line_of_set_state(ir: &IR, p: &Symbols, id: ValueId, out: &mut String)
    requires
        *ir is SetState,
    ensures
        final(out)@ == old(out)@ + command_line(p.instructions@, p.inline_constants, *ir),
{
    let ghost start = out@;
    match ir {
        IR::SetState { change, .. } => {
            push(out, "set_state ");
            push_change(out, p, change);
            proof {
                assert(out@ =~= start + command_line(p.instructions@, p.inline_constants, *ir));
            }
        },
        _ => {},
    }
    proof {
        assert(out@ =~= start + command_line(p.instructions@, p.inline_constants, *ir));
    }
}

/// Writes the line of a draw instruction.
#[verifier::spinoff_prover]
#[verifier::rlimit(100)]
fn command_line_of_draw(ir: &IR, p: &Symbols, id: ValueId, out: &mut String)
    requires
        *ir is Draw,
    ensures
        final(out)@ == old(out)@ + command_line(p.instructions@, p.inline_constants, *ir),
{
    let ghost start = out@;
    match ir {
        IR::Draw { vertex_count, instance_count, first_vertex, first_instance, pipeline, .. } => {
            push(out, "draw verts=");
            p.push_operand(out, *vertex_count);
            push(out, " insts=");
            p.push_operand(out, *instance_count);
            if !p.is_u32(*first_vertex, 0) {
                push(out, " first_vert=");
                p.push_operand(out, *first_vertex);
            }
            if !p.is_u32(*first_instance, 0) {
                push(out, " first_inst=");
                p.push_operand(out, *first_instance);
            }
            push(out, " ");
            push_pipeline(out, *pipeline);
            proof {
                assert(out@ =~= start + command_line(p.instructions@, p.inline_constants, *ir));
            }
        },
        _ => {},
    }
    proof {
        assert(out@ =~= start + command_line(p.instructions@, p.inline_constants, *ir));
    }
}

/// Writes the line of a draw indexed instruction.
#[verifier::spinoff_prover]
#[verifier::rlimit(100)]
fn command_line_of_draw_indexed(ir: &IR, p: &Symbols, id: ValueId, out: &mut String)
    requires
        *ir is DrawIndexed,
    ensures
        final(out)@ == old(out)@ + command_line(p.instructions@, p.inline_constants, *ir),
{
    let ghost start = out@;
    match ir {
        IR::DrawIndexed { index_count, instance_count, first_index, vertex_offset, first_instance, pipeline, .. } => {
            push(out, "draw_indexed indices=");
            p.push_operand(out, *index_count);
            push(out, " insts=");
            p.push_operand(out, *instance_count);
            if !p.is_u32(*first_index, 0) {
                push(out, " first_index=");
                p.push_operand(out, *first_index);
            }
            push(out, " vertex_offset=");
            p.push_operand(out, *vertex_offset);
            if !p.is_u32(*first_instance, 0) {
                push(out, " first_inst=");
                p.push_operand(out, *first_instance);
            }
            push(out, " ");
            push_pipeline(out, *pipeline);
            proof {
                assert(out@ =~= start + command_line(p.instructions@, p.inline_constants, *ir));
            }
        },
        _ => {},
    }
    proof {
        assert(out@ =~= start + command_line(p.instructions@, p.inline_constants, *ir));
    }
}

/// Writes the line of a call opaque instruction.
#[verifier::spinoff_prover]
#[verifier::rlimit(100)]
fn command_line_of_call_opaque(ir: &IR, p: &Symbols, id: ValueId, out: &mut String)
    requires
        *ir is CallOpaque,
    ensures
        final(out)@ == old(out)@ + command_line(p.instructions@, p.inline_constants, *ir),
{
    let ghost start = out@;
    match ir {
        IR::CallOpaque { body, pipeline, .. } => {
            push(out, "call.opaque body=");
            p.push_operand(out, *body);
            push(out, " ");
            push_pipeline(out, *pipeline);
            proof {
                assert(out@ =~= start + command_line(p.instructions@, p.inline_constants, *ir));
            }
        },
        _ => {},
    }
    proof {
        assert(out@ =~= start + command_line(p.instructions@, p.inline_constants, *ir));
    }
}

/// Writes the line of an end rendering instruction.
#[verifier::spinoff_prover]
#[verifier::rlimit(100)]
fn command_line_of_end_rendering(ir: &IR, p: &Symbols, id: ValueId, out: &mut String)
    requires
        *ir is EndRendering,
    ensures
        final(out)@ == old(out)@ + command_line(p.instructions@, p.inline_constants, *ir),
{
    let ghost start = out@;
    match ir {
        IR::EndRendering { .. } => push(out, "end_rendering"),
        _ => {},
    }
    proof {
        assert(out@ =~= start + command_line(p.instructions@, p.inline_constants, *ir));
    }
}

/// Writes the line of a begin compute instruction.
#[verifier::spinoff_prover]
#[verifier::rlimit(100)]
fn command_line_of_begin_compute(ir: &IR, p: &Symbols, id: ValueId, out: &mut String)
    requires
        *ir is BeginCompute,
    ensures
        final(out)@ == old(out)@ + command_line(p.instructions@, p.inline_constants, *ir),
{
    let ghost start = out@;
    match ir {
        IR::BeginCompute { attachments, name } => {
            push(out, "begin_compute");
            p.push_name(out, *name);
            p.push_attachments(out, attachments);
            proof {
                assert(out@ =~= start + command_line(p.instructions@, p.inline_constants, *ir));
            }
        },
        _ => {},
    }
    proof {
        assert(out@ =~= start + command_line(p.instructions@, p.inline_constants, *ir));
    }
}

/// Writes the line of a command recorded in a pass.
#[verifier::spinoff_prover]
#[verifier::rlimit(100)]
fn command_line_of(ir: &IR, p: &Symbols, id: ValueId, out: &mut String)
    requires
        line_group(*ir) == 2,
    ensures
        final(out)@ == old(out)@ + command_line(p.instructions@, p.inline_constants, *ir),
{
    let ghost start = out@;
    match ir {
        IR::BindVertexBuffers { .. } => command_line_of_bind_vertex_buffers(ir, p, id, out),
        IR::BindIndexBuffer { .. } => command_line_of_bind_index_buffer(ir, p, id, out),
        IR::WriteDescriptor { .. } => command_line_of_write_descriptor(ir, p, id, out),
        IR::SetState { .. } => command_line_of_set_state(ir, p, id, out),
        IR::Draw { .. } => command_line_of_draw(ir, p, id, out),
        IR::DrawIndexed { .. } => command_line_of_draw_indexed(ir, p, id, out),
        IR::CallOpaque { .. } => command_line_of_call_opaque(ir, p, id, out),
        IR::EndRendering { .. } => command_line_of_end_rendering(ir, p, id, out),
        IR::BeginCompute { .. } => command_line_of_begin_compute(ir, p, id, out),
        _ => {},
    }
    proof {
        assert(out@ =~= start + command_line(p.instructions@, p.inline_constants, *ir));
    }
}

/// Writes the line of a dispatch, the end of a compute pass, control flow or a barrier.
#[verifier::spinoff_prover]
#[verifier::rlimit(100)]
fn control_line_of(ir: &IR, p: &Symbols, id: ValueId, out: &mut String)
    requires
        line_group(*ir) == 3,
    ensures
        final(out)@ == old(out)@ + control_line(p.instructions@, p.inline_constants, *ir),
{
    let ghost start = out@;
    match ir {
        IR::Dispatch { size, pipeline, .. } => {
            match size {
                DispatchSize::Groups { x, y, z } => {
                    push(out, "dispatch groups_x=");
                    p.push_operand(out, *x);
                    push(out, " groups_y=");
                    p.push_operand(out, *y);
                    push(out, " groups_z=");
                    p.push_operand(out, *z);
                },
                DispatchSize::Invocations { x, y, z } => {
                    push(out, "dispatch invocations_x=");
                    p.push_operand(out, *x);
                    push(out, " invocations_y=");
                    p.push_operand(out, *y);
                    push(out, " invocations_z=");
                    p.push_operand(out, *z);
                },
                DispatchSize::InvocationsPerPixel { image, scale_x, scale_y, scale_z } => {
                    push(out, "dispatch invocations_per_pixel ");
                    p.push_operand(out, *image);
                    if !(*scale_x == ONE_F32_BITS && *scale_y == ONE_F32_BITS && *scale_z == ONE_F32_BITS) {
                        push(out, " scale=[");
                        push_bits(out, *scale_x);
                        push(out, ", ");
                        push_bits(out, *scale_y);
                        push(out, ", ");
                        push_bits(out, *scale_z);
                        push(out, "]");
                    }
                },
                DispatchSize::InvocationsPerElement { buffer, element_size, scale } => {
                    push(out, "dispatch invocations_per_element ");
                    p.push_operand(out, *buffer);
                    push(out, " element_size=");
                    push_decimal(out, *element_size);
                    if *scale != ONE_F32_BITS {
                        push(out, " scale=");
                        push_bits(out, *scale);
                    }
                },
                DispatchSize::Indirect { buffer, offset } => {
                    push(out, "dispatch.indirect ");
                    p.push_operand(out, *buffer);
                    if *offset != 0 {
                        push(out, " offset=");
                        push_decimal(out, *offset);
                    }
                },
            }
            push(out, " ");
            push_pipeline(out, *pipeline);
            proof {
                assert(out@ =~= start + control_line(p.instructions@, p.inline_constants, *ir));
            }
        },
        IR::EndCompute { .. } => push(out, "end_compute"),
        IR::Label { label } => {
            push_label(out, *label);
            push(out, ":");
            proof {
                assert(out@ =~= start + control_line(p.instructions@, p.inline_constants, *ir));
            }
        },
        IR::SelectionMerge { merge } => {
            push(out, "selection_merge ");
            push_label(out, *merge);
            proof {
                assert(out@ =~= start + control_line(p.instructions@, p.inline_constants, *ir));
            }
        },
        IR::Branch { target } => {
            push(out, "branch ");
            push_label(out, *target);
            proof {
                assert(out@ =~= start + control_line(p.instructions@, p.inline_constants, *ir));
            }
        },
        IR::BranchConditional { condition, true_label, false_label } => {
            push(out, "branch_cond ");
            p.push_operand(out, *condition);
            push(out, " -> ");
            push_label(out, *true_label);
            push(out, ", ");
            push_label(out, *false_label);
            proof {
                assert(out@ =~= start + control_line(p.instructions@, p.inline_constants, *ir));
            }
        },
        IR::Return => push(out, "return"),
        IR::Phi { incoming } => {
            push(out, "phi [");
            let ghost base = out@;
            let ghost f = incoming_fn(p.instructions@, p.inline_constants, incoming@);
            let mut i: usize = 0;
            while i < incoming.len()
                invariant
                    i <= incoming@.len(),
                    f == incoming_fn(p.instructions@, p.inline_constants, incoming@),
                    out@ == base + joined(Seq::new(i as nat, f)),
                decreases incoming@.len() - i,
            {
                proof {
                    lemma_joined_push(Seq::new(i as nat, f), f(i as int));
                    assert(Seq::new((i + 1) as nat, f) =~= Seq::new(i as nat, f).push(f(i as int)));
                }
                if i > 0 {
                    push(out, ", ");
                }
                let (value, label) = incoming[i];
                p.push_operand(out, value);
                push(out, " from ");
                push_label(out, label);
                proof {
                    let t = joined(Seq::new(i as nat, f));
                    assert(t.len() == 0 ==> t =~= Seq::<char>::empty());
                    assert(f(i as int) == incoming_text(p.instructions@, p.inline_constants, incoming@, i as int));
                    assert(out@ =~= base + joined(Seq::new((i + 1) as nat, f)));
                }
                i = i + 1;
            }
            push(out, "]");
            proof {
                assert(out@ =~= start + control_line(p.instructions@, p.inline_constants, *ir));
            }
        },
        IR::MemoryBarrier { src_access, dst_access } => {
            push(out, "barrier.memory ");
            p.push_operand(out, *src_access);
            push(out, " -> ");
            p.push_operand(out, *dst_access);
            proof {
                assert(out@ =~= start + control_line(p.instructions@, p.inline_constants, *ir));
            }
        },
        IR::ImageBarrier { src_access, dst_access, old_layout, new_layout, value } => {
            push(out, "barrier.image ");
            p.push_operand(out, *value);
            push(out, " ");
            push_layout(out, *old_layout);
            push(out, " -> ");
            push_layout(out, *new_layout);
            push(out, " access=");
            p.push_operand(out, *src_access);
            push(out, " -> ");
            p.push_operand(out, *dst_access);
            proof {
                assert(out@ =~= start + control_line(p.instructions@, p.inline_constants, *ir));
            }
        },
        _ => {},
    }
    proof {
        assert(out@ =~= start + control_line(p.instructions@, p.inline_constants, *ir));
    }
}

impl IR {
    /// The instruction as a line of the dump, reading its operands out of `p`; `id` is the
    /// value it defines.
    pub fn display(&self, p: &Symbols, id: ValueId) -> (r: String)
        ensures
            r@ == line_text(p.instructions@, p.inline_constants, p.bound@, *self, id),
    {
        let mut out = String::new();
        match self {
            IR::Type(_) | IR::Constant(_) | IR::Variable { .. } | IR::Array { .. } | IR::Index { .. }
            | IR::ConstructBuffer { .. } | IR::ConstructImage { .. } => value_line_of(self, p, id, &mut out),
            IR::AcquireNextImage { .. } | IR::SwapchainImage { .. } | IR::Acquire { .. } | IR::Release { .. }
            | IR::Clear { .. } | IR::Blit { .. } | IR::CopyBufferToImage { .. } | IR::BeginRendering { .. }
            | IR::BindPipeline { .. } => transfer_line_of(self, p, id, &mut out),
            IR::BindVertexBuffers { .. } | IR::BindIndexBuffer { .. } | IR::WriteDescriptor { .. } | IR::SetState { .. }
            | IR::Draw { .. } | IR::DrawIndexed { .. } | IR::CallOpaque { .. } | IR::EndRendering { .. }
            | IR::BeginCompute { .. } => command_line_of(self, p, id, &mut out),
            _ => control_line_of(self, p, id, &mut out),
        }
        proof {
            assert(out@ =~= line_text(p.instructions@, p.inline_constants, p.bound@, *self, id));
        }
        out
    }

    /// The state a draw runs with, or the push constants a dispatch runs with where it has
    /// any, as a line of its own; nothing for anything else.
    pub fn draw_state(&self) -> (r: Option<String>)
        ensures
            match r {
                Some(t) => draw_state_of(*self) == Some(t@),
                None => draw_state_of(*self) is None,
            },
    {
        let (state, dynamic) = match self {
            IR::Draw { state, dynamic, .. } | IR::DrawIndexed { state, dynamic, .. } | IR::CallOpaque {
                state,
                dynamic,
                ..
            } => (state, dynamic),
            IR::Dispatch { push_constants, .. } => {
                if push_constants.data.len() == 0 {
                    return None;
                }
                let mut out = String::new();
                push_push_constants(&mut out, push_constants);
                return Some(out);
            },
            _ => return None,
        };
        Some(draw_state_text(state, dynamic))
    }
}

/// The range of push constants a draw or dispatch is given, as a dump writes it.
pub open spec fn push_constants_text(push_constants: PushConstants) -> Seq<char> {
    "push_constants=["@ + decimal(push_constants.offset as nat) + ".."@ + decimal(
        (push_constants.offset + push_constants.data@.len() % 0x1_0000_0000) as nat,
    ) + "]"@
}

fn push_push_constants(out: &mut String, push_constants: &PushConstants)
    ensures
        final(out)@ == old(out)@ + push_constants_text(*push_constants),
{
    let ghost start = out@;
    push(out, "push_constants=[");
    push_decimal(out, push_constants.offset as u64);
    push(out, "..");
    push_decimal(out, (push_constants.offset as u64) + (push_constants.data.len() as u64 % 0x1_0000_0000));
    push(out, "]");
    proof {
        assert(out@ =~= start + push_constants_text(*push_constants));
    }
}

/// `parts` joined by `, `.
pub open spec fn joined(parts: Seq<Seq<char>>) -> Seq<char>
    decreases parts.len(),
{
    if parts.len() == 0 {
        Seq::empty()
    } else if parts.len() == 1 {
        parts[0]
    } else {
        joined(parts.drop_last()) + ", "@ + parts.last()
    }
}

proof fn lemma_joined_push(parts: Seq<Seq<char>>, x: Seq<char>)
    ensures
        joined(parts.push(x)) == if parts.len() == 0 { x } else { joined(parts) + ", "@ + x },
{
    assert(parts.push(x).drop_last() =~= parts);
}

proof fn lemma_map_take_push<A>(s: Seq<A>, i: int, f: spec_fn(A) -> Seq<char>)
    requires
        0 <= i < s.len(),
    ensures
        s.take(i + 1).map_values(f) == s.take(i).map_values(f).push(f(s[i])),
{
    assert(s.take(i + 1).map_values(f) =~= s.take(i).map_values(f).push(f(s[i])));
}

/// The color formats a draw writes, as its comment names them.
pub open spec fn formats_part(state: PipelineState) -> Seq<char> {
    "formats=["@ + joined(state.rendering.color_formats@.map_values(|f: i32| format_name(f))) + "]"@
}

/// The sample count a draw runs at, where it is not one.
pub open spec fn samples_part(state: PipelineState) -> Seq<char> {
    if state.rendering.samples != SAMPLE_COUNT_1 {
        " samples="@ + decimal(state.rendering.samples as nat)
    } else {
        Seq::empty()
    }
}

/// The topology a draw runs with, where it is not a triangle list.
pub open spec fn topology_part(state: PipelineState) -> Seq<char> {
    if state.topology != TOPOLOGY_TRIANGLE_LIST {
        " topology="@ + topology_name(state.topology)
    } else {
        Seq::empty()
    }
}

/// The rasterization a draw runs with, where it is not the default one.
pub open spec fn raster_part(state: PipelineState) -> Seq<char> {
    if state.rasterization != RasterizationState::spec_default() {
        " raster={"@ + rasterization_text(state.rasterization) + "}"@
    } else {
        Seq::empty()
    }
}

/// The blend states a draw runs with.
pub open spec fn blend_part(state: PipelineState) -> Seq<char> {
    " blend=["@ + joined(state.blend@.map_values(|b: ColorBlendAttachmentState| blend_text(b))) + "]"@
}

/// The viewports a draw runs with: those of its state, or the dynamic ones where it has none.
pub open spec fn viewports_part(state: PipelineState, dynamic: DynamicValues) -> Seq<char> {
    (if state.viewports@.len() == 0 {
        " viewports=dynamic["@ + joined(dynamic.viewports@.map_values(|v: Viewport| viewport_text(v)))
    } else {
        " viewports=["@ + joined(state.viewports@.map_values(|v: Viewport| viewport_text(v)))
    }) + "]"@
}

/// The scissors a draw runs with: those of its state, or the dynamic ones where it has none.
pub open spec fn scissors_part(state: PipelineState, dynamic: DynamicValues) -> Seq<char> {
    (if state.scissors@.len() == 0 {
        " scissors=dynamic["@ + joined(dynamic.scissors@.map_values(|r: Rect2D| rect2d_text(r)))
    } else {
        " scissors=["@ + joined(state.scissors@.map_values(|r: Rect2D| rect2d_text(r)))
    }) + "]"@
}

/// The push constants a draw is given, where it is given any.
pub open spec fn push_part(dynamic: DynamicValues) -> Seq<char> {
    if dynamic.push_constants.data@.len() != 0 {
        " "@ + push_constants_text(dynamic.push_constants)
    } else {
        Seq::empty()
    }
}

/// The state a draw runs with, as the comment after it in a dump writes it.
pub open spec fn draw_state_spec(state: PipelineState, dynamic: DynamicValues) -> Seq<char> {
    formats_part(state) + samples_part(state) + topology_part(state) + raster_part(state) + blend_part(state)
        + viewports_part(state, dynamic) + scissors_part(state, dynamic) + push_part(dynamic)
}

/// Formats by name, joined by `, `.
fn push_formats(out: &mut String, items: &Vec<i32>)
    ensures
        final(out)@ == old(out)@ + joined(items@.map_values(|f: i32| format_name(f))),
{
    let ghost f = |f: i32| format_name(f);
    let ghost base = out@;
    let mut i: usize = 0;
    while i < items.len()
        invariant
            i <= items@.len(),
            f == (|f: i32| format_name(f)),
            out@ == base + joined(items@.take(i as int).map_values(f)),
        decreases items@.len() - i,
    {
        proof {
            lemma_map_take_push(items@, i as int, f);
            lemma_joined_push(items@.take(i as int).map_values(f), f(items@[i as int]));
        }
        if i > 0 {
            push(out, ", ");
        }
        push(out, format_text(items[i]).as_str());
        proof {
            let t = joined(items@.take(i as int).map_values(f));
            assert(t.len() == 0 ==> t =~= Seq::<char>::empty());
            assert(out@ =~= base + joined(items@.take(i + 1).map_values(f)));
        }
        i = i + 1;
    }
    proof {
        assert(items@.take(i as int) =~= items@);
    }
}

/// Blend states, joined by `, `.
fn push_blends(out: &mut String, items: &Vec<ColorBlendAttachmentState>)
    ensures
        final(out)@ == old(out)@ + joined(items@.map_values(|b: ColorBlendAttachmentState| blend_text(b))),
{
    let ghost f = |b: ColorBlendAttachmentState| blend_text(b);
    let ghost base = out@;
    let mut i: usize = 0;
    while i < items.len()
        invariant
            i <= items@.len(),
            f == (|b: ColorBlendAttachmentState| blend_text(b)),
            out@ == base + joined(items@.take(i as int).map_values(f)),
        decreases items@.len() - i,
    {
        proof {
            lemma_map_take_push(items@, i as int, f);
            lemma_joined_push(items@.take(i as int).map_values(f), f(items@[i as int]));
        }
        if i > 0 {
            push(out, ", ");
        }
        push_blend(out, &items[i]);
        proof {
            let t = joined(items@.take(i as int).map_values(f));
            assert(t.len() == 0 ==> t =~= Seq::<char>::empty());
            assert(out@ =~= base + joined(items@.take(i + 1).map_values(f)));
        }
        i = i + 1;
    }
    proof {
        assert(items@.take(i as int) =~= items@);
    }
}

/// Viewports, joined by `, `.
fn push_viewports(out: &mut String, items: &Vec<Viewport>)
    ensures
        final(out)@ == old(out)@ + joined(items@.map_values(|v: Viewport| viewport_text(v))),
{
    let ghost f = |v: Viewport| viewport_text(v);
    let ghost base = out@;
    let mut i: usize = 0;
    while i < items.len()
        invariant
            i <= items@.len(),
            f == (|v: Viewport| viewport_text(v)),
            out@ == base + joined(items@.take(i as int).map_values(f)),
        decreases items@.len() - i,
    {
        proof {
            lemma_map_take_push(items@, i as int, f);
            lemma_joined_push(items@.take(i as int).map_values(f), f(items@[i as int]));
        }
        if i > 0 {
            push(out, ", ");
        }
        push_viewport(out, &items[i]);
        proof {
            let t = joined(items@.take(i as int).map_values(f));
            assert(t.len() == 0 ==> t =~= Seq::<char>::empty());
            assert(out@ =~= base + joined(items@.take(i + 1).map_values(f)));
        }
        i = i + 1;
    }
    proof {
        assert(items@.take(i as int) =~= items@);
    }
}

/// Scissor rectangles, joined by `, `.
fn push_rects(out: &mut String, items: &Vec<Rect2D>)
    ensures
        final(out)@ == old(out)@ + joined(items@.map_values(|r: Rect2D| rect2d_text(r))),
{
    let ghost f = |r: Rect2D| rect2d_text(r);
    let ghost base = out@;
    let mut i: usize = 0;
    while i < items.len()
        invariant
            i <= items@.len(),
            f == (|r: Rect2D| rect2d_text(r)),
            out@ == base + joined(items@.take(i as int).map_values(f)),
        decreases items@.len() - i,
    {
        proof {
            lemma_map_take_push(items@, i as int, f);
            lemma_joined_push(items@.take(i as int).map_values(f), f(items@[i as int]));
        }
        if i > 0 {
            push(out, ", ");
        }
        push_rect2d(out, &items[i]);
        proof {
            let t = joined(items@.take(i as int).map_values(f));
            assert(t.len() == 0 ==> t =~= Seq::<char>::empty());
            assert(out@ =~= base + joined(items@.take(i + 1).map_values(f)));
        }
        i = i + 1;
    }
    proof {
        assert(items@.take(i as int) =~= items@);
    }
}

/// The color formats a draw writes.
fn push_formats_part(out: &mut String, state: &PipelineState)
    ensures
        final(out)@ == old(out)@ + formats_part(*state),
{
    let ghost start = out@;
    push(out, "formats=[");
    push_formats(out, &state.rendering.color_formats);
    push(out, "]");
    proof {
        assert(out@ =~= start + formats_part(*state));
    }
}

/// The sample count a draw runs at, where it is not one.
fn push_samples_part(out: &mut String, state: &PipelineState)
    ensures
        final(out)@ == old(out)@ + samples_part(*state),
{
    let ghost start = out@;
    if state.rendering.samples != SAMPLE_COUNT_1 {
        push(out, " samples=");
        push_decimal(out, state.rendering.samples as u64);
    }
    proof {
        assert(out@ =~= start + samples_part(*state));
    }
}

/// The topology a draw runs with, where it is not a triangle list.
fn push_topology_part(out: &mut String, state: &PipelineState)
    ensures
        final(out)@ == old(out)@ + topology_part(*state),
{
    let ghost start = out@;
    if state.topology != TOPOLOGY_TRIANGLE_LIST {
        push(out, " topology=");
        push(out, topology_text(state.topology).as_str());
    }
    proof {
        assert(out@ =~= start + topology_part(*state));
    }
}

/// The rasterization a draw runs with, where it is not the default one.
fn push_raster_part(out: &mut String, state: &PipelineState)
    ensures
        final(out)@ == old(out)@ + raster_part(*state),
{
    let ghost start = out@;
    if state.rasterization != RasterizationState::default_state() {
        push(out, " raster={");
        push_rasterization(out, &state.rasterization);
        push(out, "}");
    }
    proof {
        assert(out@ =~= start + raster_part(*state));
    }
}

/// The blend states a draw runs with.
fn push_blend_part(out: &mut String, state: &PipelineState)
    ensures
        final(out)@ == old(out)@ + blend_part(*state),
{
    let ghost start = out@;
    push(out, " blend=[");
    push_blends(out, &state.blend);
    push(out, "]");
    proof {
        assert(out@ =~= start + blend_part(*state));
    }
}

/// The viewports a draw runs with.
fn push_viewports_part(out: &mut String, state: &PipelineState, dynamic: &DynamicValues)
    ensures
        final(out)@ == old(out)@ + viewports_part(*state, *dynamic),
{
    let ghost start = out@;
    if state.viewports.len() == 0 {
        push(out, " viewports=dynamic[");
        push_viewports(out, &dynamic.viewports);
    } else {
        push(out, " viewports=[");
        push_viewports(out, &state.viewports);
    }
    push(out, "]");
    proof {
        assert(out@ =~= start + viewports_part(*state, *dynamic));
    }
}

/// The scissors a draw runs with.
fn push_scissors_part(out: &mut String, state: &PipelineState, dynamic: &DynamicValues)
    ensures
        final(out)@ == old(out)@ + scissors_part(*state, *dynamic),
{
    let ghost start = out@;
    if state.scissors.len() == 0 {
        push(out, " scissors=dynamic[");
        push_rects(out, &dynamic.scissors);
    } else {
        push(out, " scissors=[");
        push_rects(out, &state.scissors);
    }
    push(out, "]");
    proof {
        assert(out@ =~= start + scissors_part(*state, *dynamic));
    }
}

/// The push constants a draw is given, where it is given any.
fn push_push_part(out: &mut String, dynamic: &DynamicValues)
    ensures
        final(out)@ == old(out)@ + push_part(*dynamic),
{
    let ghost start = out@;
    if dynamic.push_constants.data.len() != 0 {
        push(out, " ");
        push_push_constants(out, &dynamic.push_constants);
    }
    proof {
        assert(out@ =~= start + push_part(*dynamic));
    }
}

/// The state a draw runs with, as the comment after it writes it.
fn draw_state_text(state: &PipelineState, dynamic: &DynamicValues) -> (r: String)
    ensures
        r@ == draw_state_spec(*state, *dynamic),
{
    let mut out = String::new();
    push_formats_part(&mut out, state);
    push_samples_part(&mut out, state);
    push_topology_part(&mut out, state);
    push_raster_part(&mut out, state);
    push_blend_part(&mut out, state);
    push_viewports_part(&mut out, state, dynamic);
    push_scissors_part(&mut out, state, dynamic);
    push_push_part(&mut out, dynamic);
    proof {
        assert(out@ =~= draw_state_spec(*state, *dynamic));
    }
    out
}

/// `depth` levels of two spaces each.
pub fn indent(depth: usize) -> (r: String)
    ensures
        r@ == Seq::new(2 * depth as nat, |k: int| ' '),
{
    let mut out = String::new();
    let mut i: usize = 0;
    proof {
        assert(out@ =~= Seq::new(0, |k: int| ' '));
    }
    while i < depth
        invariant
            i <= depth,
            out@ == Seq::new(2 * i as nat, |k: int| ' '),
        decreases depth - i,
    {
        proof {
            reveal_strlit("  ");
        }
        push(&mut out, "  ");
        proof {
            assert(out@ =~= Seq::new(2 * (i + 1) as nat, |k: int| ' '));
        }
        i = i + 1;
    }
    out
}

/// Ends what `out` holds with an empty line, unless it is empty or already does.
pub fn blank_line(out: &mut String)
    ensures
        final(out)@ == if old(out)@.len() == 0 || ends_with(old(out)@, "\n\n"@) {
            old(out)@
        } else {
            old(out)@ + "\n"@
        },
{
    proof {
        reveal_strlit("\n\n");
    }
    let empty = out.as_str().unicode_len() == 0;
    if !empty && !text_ends_with(out.as_str(), "\n\n") {
        push(out, "\n");
    }
}

/// A pass's target as its header names it: its name in quotes, or its id, and its extent where
/// that is a constant.
pub open spec fn target_text(instrs: Seq<(ValueId, IR)>, resource: ValueId) -> Seq<char> {
    (match name_of(instrs, resource) {
        Some(n) => "\""@ + n + "\""@,
        None => id_text(resource),
    }) + match extent_of(instrs, resource) {
        Some(e) => " "@ + decimal(e.width as nat) + "x"@ + decimal(e.height as nat),
        None => Seq::empty(),
    }
}

/// The comment that heads a pass: its name quoted, then `->` and what it draws into or
/// dispatches over, where it has any of these.
pub open spec fn pass_header_spec(instrs: Seq<(ValueId, IR)>, ir: IR) -> Seq<char> {
    match ir {
        IR::BeginRendering { attachments, name, .. } | IR::BeginCompute { attachments, name } => {
            let targets = joined(attachments@.map_values(|a: (ValueId, ValueId)| target_text(instrs, a.0)));
            match constant_of(instrs, name) {
                Some(Constant::String(n)) => quoted(n@) + if attachments@.len() > 0 {
                    " -> "@ + targets
                } else {
                    Seq::empty()
                },
                _ => if attachments@.len() > 0 {
                    "-> "@ + targets
                } else {
                    Seq::empty()
                },
            }
        },
        _ => Seq::empty(),
    }
}

/// The heading of a pass: its name quoted and the resources it reaches, each by its name
/// (quoted) or its id and its extent where that is known.
pub fn pass_header(program: &Symbols, ir: &IR) -> (r: String)
    ensures
        r@ == pass_header_spec(program.instructions@, *ir),
{
    let (attachments, name) = match ir {
        IR::BeginRendering { attachments, name, .. } => (attachments, *name),
        IR::BeginCompute { attachments, name } => (attachments, *name),
        _ => return String::new(),
    };
    let ghost tf = |a: (ValueId, ValueId)| target_text(program.instructions@, a.0);
    let mut targets = String::new();
    let mut i: usize = 0;
    while i < attachments.len()
        invariant
            i <= attachments@.len(),
            tf == (|a: (ValueId, ValueId)| target_text(program.instructions@, a.0)),
            targets@ == joined(attachments@.take(i as int).map_values(tf)),
        decreases attachments@.len() - i,
    {
        let ghost before = targets@;
        proof {
            lemma_map_take_push(attachments@, i as int, tf);
            lemma_joined_push(attachments@.take(i as int).map_values(tf), tf(attachments@[i as int]));
        }
        if i > 0 {
            push(&mut targets, ", ");
        }
        let ghost joint = targets@;
        let resource = attachments[i].0;
        match program.name(resource) {
            Some(n) => {
                push(&mut targets, "\"");
                push(&mut targets, n.as_str());
                push(&mut targets, "\"");
            },
            None => push_id(&mut targets, resource),
        }
        if let Some(extent) = program.extent(resource) {
            push(&mut targets, " ");
            push_decimal(&mut targets, extent.width as u64);
            push(&mut targets, "x");
            push_decimal(&mut targets, extent.height as u64);
        }
        proof {
            assert(targets@ =~= joint + target_text(program.instructions@, attachments@[i as int].0));
            assert(before.len() == 0 ==> before =~= Seq::<char>::empty());
            assert(targets@ =~= joined(attachments@.take(i + 1).map_values(tf)));
        }
        i = i + 1;
    }
    proof {
        assert(attachments@.take(i as int) =~= attachments@);
    }
    let no_targets = attachments.len() == 0;
    let mut out = String::new();
    match program.string(name) {
        Some(n) => {
            let q = quote(n.as_str());
            push(&mut out, q.as_str());
            if !no_targets {
                push(&mut out, " -> ");
                push(&mut out, targets.as_str());
            }
        },
        None => {
            if !no_targets {
                push(&mut out, "-> ");
                push(&mut out, targets.as_str());
            }
        },
    }
    proof {
        assert(out@ =~= pass_header_spec(program.instructions@, *ir));
    }
    out
}

/// The instruction is of the kind `kind` names: passes, barriers, constants, types or blocks.
pub open spec fn of_kind(ir: IR, kind: u8) -> bool {
    match ir {
        IR::BeginRendering { .. } | IR::BeginCompute { .. } => kind == 0,
        IR::MemoryBarrier { .. } | IR::ImageBarrier { .. } => kind == 1,
        IR::Constant(_) => kind == 2,
        IR::Type(_) => kind == 3,
        IR::Label { .. } => kind == 4,
        _ => false,
    }
}

/// How many of `s` are of the kind `kind` names.
pub open spec fn kind_count(s: Seq<(ValueId, IR)>, kind: u8) -> nat
    decreases s.len(),
{
    if s.len() == 0 {
        0
    } else {
        kind_count(s.drop_last(), kind) + if of_kind(s.last().1, kind) { 1nat } else { 0nat }
    }
}

/// How many of `instructions` are of the kind `kind` names: passes, barriers, constants,
/// types or blocks.
fn count_kind(instructions: &Vec<(ValueId, IR)>, kind: u8) -> (r: usize)
    ensures
        r == kind_count(instructions@, kind),
{
    let mut count: usize = 0;
    let mut i: usize = 0;
    while i < instructions.len()
        invariant
            i <= instructions@.len(),
            count == kind_count(instructions@.take(i as int), kind),
            count <= i,
        decreases instructions@.len() - i,
    {
        let hit = match &instructions[i].1 {
            IR::BeginRendering { .. } | IR::BeginCompute { .. } => kind == 0,
            IR::MemoryBarrier { .. } | IR::ImageBarrier { .. } => kind == 1,
            IR::Constant(_) => kind == 2,
            IR::Type(_) => kind == 3,
            IR::Label { .. } => kind == 4,
            _ => false,
        };
        proof {
            assert(instructions@.take(i + 1).drop_last() =~= instructions@.take(i as int));
            assert(hit == of_kind(instructions@[i as int].1, kind));
        }
        if hit {
            count = count + 1;
        }
        i = i + 1;
    }
    proof {
        assert(instructions@.take(i as int) =~= instructions@);
    }
    count
}

/// `n` spaces.
pub open spec fn spaces(n: nat) -> Seq<char> {
    Seq::new(n, |k: int| ' ')
}

/// `out` ended by an empty line, unless it is empty or already is.
pub open spec fn with_blank_line(out: Seq<char>) -> Seq<char> {
    if out.len() == 0 || ends_with(out, "\n\n"@) {
        out
    } else {
        out + "\n"@
    }
}

/// How wide a dump's ids are: one more than the most digits any of them has.
pub open spec fn id_width(s: Seq<(ValueId, IR)>) -> nat
    decreases s.len(),
{
    if s.len() == 0 {
        0
    } else {
        let w = id_width(s.drop_last());
        let digits = decimal(s.last().0.0 as nat).len();
        if digits < usize::MAX && digits + 1 > w {
            digits + 1
        } else {
            w
        }
    }
}

/// What a dump writes before an instruction, and the block and region depth it is then at: an
/// empty line and the pass's header before a region opens, an empty line before a block, and
/// one region fewer after it closes.
pub open spec fn dump_opening(instrs: Seq<(ValueId, IR)>, out: Seq<char>, block: nat, region: nat, ir: IR) -> (
    Seq<char>,
    nat,
    nat,
) {
    match ir {
        IR::BeginRendering { .. } | IR::BeginCompute { .. } => (
            with_blank_line(out) + ";"@ + spaces(2 * (block + region)) + " Pass "@ + pass_header_spec(instrs, ir) + "\n"@,
            block,
            region,
        ),
        IR::EndRendering { .. } | IR::EndCompute { .. } => (out, block, if region > 0 { (region - 1) as nat } else { 0 }),
        IR::Label { .. } => (with_blank_line(out), 0, 0),
        _ => (out, block, region),
    }
}

/// An instruction's own lines in a dump: its id padded to `width`, `=`, the indentation of its
/// depth and its text; for a draw, a comment with the state it runs with.
pub open spec fn dump_lines(
    instrs: Seq<(ValueId, IR)>,
    bound: Seq<ValueId>,
    width: nat,
    depth: nat,
    id: ValueId,
    ir: IR,
) -> Seq<char> {
    let id_text = "%"@ + decimal(id.0 as nat);
    let pad = if id_text.len() < width { spaces((width - id_text.len()) as nat) } else { Seq::empty() };
    let line = pad + id_text + " = "@ + spaces(2 * depth) + line_text(instrs, false, bound, ir, id) + "\n"@;
    match draw_state_of(ir) {
        Some(state) => line + ";"@ + spaces(width) + "   "@ + spaces(2 * depth) + "   "@ + state + "\n"@,
        None => line,
    }
}

/// What a dump writes for an instruction after what `out` holds, and the block and region
/// depth after it: a region opened goes one deeper, one closed is followed by an empty line, a
/// label opens a block.
pub open spec fn dump_step(
    instrs: Seq<(ValueId, IR)>,
    bound: Seq<ValueId>,
    width: nat,
    state: (Seq<char>, nat, nat),
    id: ValueId,
    ir: IR,
) -> (Seq<char>, nat, nat) {
    let (out, block, region) = dump_opening(instrs, state.0, state.1, state.2, ir);
    let text = out + dump_lines(instrs, bound, width, block + region, id, ir);
    match ir {
        IR::BeginRendering { .. } | IR::BeginCompute { .. } => (text, block, region + 1),
        IR::EndRendering { .. } | IR::EndCompute { .. } => (with_blank_line(text), block, region),
        IR::Label { .. } => (text, 1, region),
        _ => (text, block, region),
    }
}

/// The dump of the instructions `s`, the first ones of `instrs`, after `header`.
pub open spec fn dump_body(
    instrs: Seq<(ValueId, IR)>,
    bound: Seq<ValueId>,
    header: Seq<char>,
    s: Seq<(ValueId, IR)>,
) -> (Seq<char>, nat, nat)
    decreases s.len(),
{
    if s.len() == 0 {
        (header, 0, 0)
    } else {
        dump_step(instrs, bound, id_width(instrs), dump_body(instrs, bound, header, s.drop_last()), s.last().0, s.last().1)
    }
}

/// The dump of a program: its header, then each instruction in turn.
pub open spec fn dump_text(instructions: Seq<(ValueId, IR)>, bound: Seq<ValueId>) -> Seq<char> {
    dump_body(instructions, bound, dump_header(instructions), instructions).0
}

/// The program written out, a line an instruction, each under its id, indented by the block
/// and the passes it stands in, each pass headed by a comment naming it and what it reaches,
/// each draw followed by a comment with the state it runs with; after a header counting its
/// instructions, passes, barriers, constants, types and blocks. Constants are written after
/// their ids; resources bound to a variable are marked as such.
pub fn dump_with(instructions: &Vec<(ValueId, IR)>, bound: Vec<ValueId>, syntax_highlighting: bool) -> (r: String)
    ensures
        !syntax_highlighting ==> starts_with(r@, dump_header(instructions@)),
        !syntax_highlighting ==> r@ == dump_text(instructions@, bound@),
        syntax_highlighting ==> r@ == text_painted(dump_text(instructions@, bound@)),
        syntax_highlighting && plain(dump_text(instructions@, bound@)) ==> closed(r@) && shown(r@) == {
            let text = dump_text(instructions@, bound@);
            if text.len() == 0 || text.last() == '\n' {
                text
            } else {
                text.push('\n')
            }
        },
{
    let ghost names = bound@;
    let program = Symbols::with_explicit_constants(instructions, bound);
    let mut width: usize = 0;
    let mut i: usize = 0;
    while i < instructions.len()
        invariant
            i <= instructions@.len(),
            width == id_width(instructions@.take(i as int)),
        decreases instructions@.len() - i,
    {
        proof {
            assert(instructions@.take(i + 1).drop_last() =~= instructions@.take(i as int));
        }
        let digits = decimal_text(instructions[i].0.0 as u64).as_str().unicode_len();
        if digits < usize::MAX && digits + 1 > width {
            width = digits + 1;
        }
        i = i + 1;
    }
    proof {
        assert(instructions@.take(instructions@.len() as int) =~= instructions@);
    }
    let mut out = String::new();
    push(&mut out, "; render graph: ");
    push_decimal(&mut out, instructions.len() as u64);
    push(&mut out, " instructions, ");
    push_decimal(&mut out, count_kind(instructions, 0) as u64);
    push(&mut out, " passes, ");
    push_decimal(&mut out, count_kind(instructions, 1) as u64);
    push(&mut out, " barriers, ");
    push_decimal(&mut out, count_kind(instructions, 2) as u64);
    push(&mut out, " constants, ");
    push_decimal(&mut out, count_kind(instructions, 3) as u64);
    push(&mut out, " types, ");
    push_decimal(&mut out, count_kind(instructions, 4) as u64);
    push(&mut out, " blocks\n");
    let ghost header = out@;
    proof {
        assert(header =~= dump_header(instructions@));
    }
    let mut block: usize = 0;
    let mut region: usize = 0;
    let mut i: usize = 0;
    while i < instructions.len()
        invariant
            i <= instructions@.len(),
            block <= 1,
            region <= i,
            header == dump_header(instructions@),
            starts_with(out@, header),
            width == id_width(instructions@),
            program.instructions@ == instructions@,
            program.bound@ == names,
            !program.inline_constants,
            (out@, block as nat, region as nat) == dump_body(instructions@, names, header, instructions@.take(i as int)),
        decreases instructions@.len() - i,
    {
        proof {
            assert(instructions@.take(i + 1).drop_last() =~= instructions@.take(i as int));
            assert(instructions@.take(i + 1).last() == instructions@[i as int]);
        }
        let id = instructions[i].0;
        let ir = &instructions[i].1;
        let ghost opened = dump_opening(instructions@, out@, block as nat, region as nat, *ir);
        match ir {
            IR::BeginRendering { .. } | IR::BeginCompute { .. } => {
                blank_line(&mut out);
                push(&mut out, ";");
                push(&mut out, indent(block + region).as_str());
                push(&mut out, " Pass ");
                push(&mut out, pass_header(&program, ir).as_str());
                push(&mut out, "\n");
            },
            IR::EndRendering { .. } | IR::EndCompute { .. } => {
                if region > 0 {
                    region = region - 1;
                }
            },
            IR::Label { .. } => {
                blank_line(&mut out);
                block = 0;
                region = 0;
            },
            _ => {},
        }
        proof {
            assert(out@ =~= opened.0);
        }
        proof {
            lemma_starts_with_blank(opened.0, header);
        }
        write_lines(&mut out, &program, width, block + region, id, ir);
        proof {
            lemma_starts_with_extend(opened.0, dump_lines(instructions@, names, width as nat, opened.1 + opened.2, id, *ir), header);
            lemma_starts_with_blank(out@, header);
        }
        match ir {
            IR::BeginRendering { .. } | IR::BeginCompute { .. } => {
                region = region + 1;
            },
            IR::EndRendering { .. } | IR::EndCompute { .. } => blank_line(&mut out),
            IR::Label { .. } => {
                block = 1;
            },
            _ => {},
        }
        i = i + 1;
    }
    proof {
        assert(instructions@.take(instructions@.len() as int) =~= instructions@);
    }
    if syntax_highlighting {
        highlight(out.as_str())
    } else {
        out
    }
}

/// Writes an instruction's own lines, as a dump has them, after what `out` holds.
fn write_lines(out: &mut String, program: &Symbols, width: usize, depth_n: usize, id: ValueId, ir: &IR)
    requires
        !program.inline_constants,
    ensures
        final(out)@ == old(out)@ + dump_lines(program.instructions@, program.bound@, width as nat, depth_n as nat, id, *ir),
{
    let ghost start = out@;
    let depth = indent(depth_n);
    let mut id_text = String::new();
    push_id(&mut id_text, id);
    let id_len = id_text.as_str().unicode_len();
    let mut pad: usize = id_len;
    proof {
        assert(start + spaces(0) =~= start);
    }
    while pad < width
        invariant
            id_len <= pad,
            pad <= width || pad == id_len,
            out@ == start + spaces((pad - id_len) as nat),
        decreases width - pad,
    {
        push(out, " ");
        proof {
            reveal_strlit(" ");
            assert(out@ =~= start + spaces((pad + 1 - id_len) as nat));
        }
        pad = pad + 1;
    }
    push(out, id_text.as_str());
    push(out, " = ");
    push(out, depth.as_str());
    push(out, ir.display(program, id).as_str());
    push(out, "\n");
    let ghost line_end = out@;
    proof {
        let id_spec = "%"@ + decimal(id.0 as nat);
        assert(id_text@ =~= id_spec);
        let pad_spec = if id_spec.len() < width { spaces((width - id_spec.len()) as nat) } else { Seq::<char>::empty() };
        assert(spaces((pad - id_len) as nat) =~= pad_spec);
        assert(line_end =~= start + (pad_spec + id_spec + " = "@ + spaces(2 * (depth_n as nat)) + line_text(
            program.instructions@,
            false,
            program.bound@,
            *ir,
            id,
        ) + "\n"@));
    }
    if let Some(state) = ir.draw_state() {
        push(out, ";");
        let ghost semi = out@;
        let mut pad: usize = 0;
        proof {
            assert(semi + spaces(0) =~= semi);
        }
        while pad < width
            invariant
                pad <= width,
                out@ == semi + spaces(pad as nat),
            decreases width - pad,
        {
                push(out, " ");
            proof {
                reveal_strlit(" ");
                assert(out@ =~= semi + spaces((pad + 1) as nat));
            }
            pad = pad + 1;
        }
        push(out, "   ");
        push(out, depth.as_str());
        push(out, "   ");
        push(out, state.as_str());
        push(out, "\n");
        proof {
            assert(out@ =~= line_end + (";"@ + spaces(width as nat) + "   "@ + spaces(2 * (depth_n as nat)) + "   "@
                + state@ + "\n"@));
        }
    }
    proof {
        assert(out@ =~= start + dump_lines(program.instructions@, program.bound@, width as nat, depth_n as nat, id, *ir));
    }
}

/// Appending keeps what a text starts with.
proof fn lemma_starts_with_extend(a: Seq<char>, x: Seq<char>, h: Seq<char>)
    requires
        starts_with(a, h),
    ensures
        starts_with(a + x, h),
{
    assert forall|k: int| 0 <= k < h.len() implies #[trigger] (a + x)[k] == h[k] by {
        assert((a + x)[k] == a[k]);
    }
}

/// Ending a text with an empty line keeps what it starts with.
proof fn lemma_starts_with_blank(a: Seq<char>, h: Seq<char>)
    requires
        starts_with(a, h),
    ensures
        starts_with(with_blank_line(a), h),
{
    lemma_starts_with_extend(a, "\n"@, h);
}

/// `s` begins with `prefix`.
pub open spec fn starts_with(s: Seq<char>, prefix: Seq<char>) -> bool {
    prefix.len() <= s.len() && forall|k: int| 0 <= k < prefix.len() ==> #[trigger] s[k] == prefix[k]
}

/// The header a dump opens with: how many instructions, passes, barriers, constants, types and
/// blocks the program holds.
pub open spec fn dump_header(instructions: Seq<(ValueId, IR)>) -> Seq<char> {
    "; render graph: "@ + decimal(instructions.len()) + " instructions, "@ + decimal(kind_count(instructions, 0))
        + " passes, "@ + decimal(kind_count(instructions, 1)) + " barriers, "@ + decimal(kind_count(instructions, 2))
        + " constants, "@ + decimal(kind_count(instructions, 3)) + " types, "@ + decimal(kind_count(instructions, 4))
        + " blocks\n"@
}

/// [`dump_with`] without highlighting.
pub fn dump(instructions: &Vec<(ValueId, IR)>, bound: Vec<ValueId>) -> (r: String)
    ensures
        starts_with(r@, dump_header(instructions@)),
        r@ == dump_text(instructions@, bound@),
{
    dump_with(instructions, bound, false)
}

/// The colors a highlighted dump marks its tokens with.
pub const RESET: &'static str = "\x1b[0m";

/// What `s` shows, read from `inside` an escape or not: every character but the escapes that
/// switch colors, each running from the escape character to the `m` that ends it.
pub open spec fn shown_from(s: Seq<char>, inside: bool) -> Seq<char>
    decreases s.len(),
{
    if s.len() == 0 {
        Seq::empty()
    } else if inside {
        shown_from(s.drop_first(), s[0] != 'm')
    } else if s[0] == '\u{1b}' {
        shown_from(s.drop_first(), true)
    } else {
        seq![s[0]] + shown_from(s.drop_first(), false)
    }
}

/// Whether reading `s` from `inside` an escape or not ends inside one.
pub open spec fn ends_inside(s: Seq<char>, inside: bool) -> bool
    decreases s.len(),
{
    if s.len() == 0 {
        inside
    } else if inside {
        ends_inside(s.drop_first(), s[0] != 'm')
    } else if s[0] == '\u{1b}' {
        ends_inside(s.drop_first(), true)
    } else {
        ends_inside(s.drop_first(), false)
    }
}

/// What `s` shows on a terminal: `s` without the escapes that switch colors.
pub open spec fn shown(s: Seq<char>) -> Seq<char> {
    shown_from(s, false)
}

/// `s` ends outside any escape.
pub open spec fn closed(s: Seq<char>) -> bool {
    !ends_inside(s, false)
}

/// `s` holds no escape character.
pub open spec fn plain(s: Seq<char>) -> bool {
    forall|i: int| 0 <= i < s.len() ==> s[i] != '\u{1b}'
}

/// Reading two pieces one after the other is reading the first, then the second from where
/// the first left off.
proof fn lemma_shown_concat(a: Seq<char>, b: Seq<char>, inside: bool)
    ensures
        shown_from(a + b, inside) == shown_from(a, inside) + shown_from(b, ends_inside(a, inside)),
        ends_inside(a + b, inside) == ends_inside(b, ends_inside(a, inside)),
    decreases a.len(),
{
    if a.len() == 0 {
        assert(a + b =~= b);
    } else {
        assert((a + b).drop_first() =~= a.drop_first() + b);
        assert((a + b)[0] == a[0]);
        let next = if inside { a[0] != 'm' } else { a[0] == '\u{1b}' };
        lemma_shown_concat(a.drop_first(), b, next);
        if !inside && a[0] != '\u{1b}' {
            assert(seq![a[0]] + (shown_from(a.drop_first(), false) + shown_from(b, ends_inside(a.drop_first(), false)))
                =~= (seq![a[0]] + shown_from(a.drop_first(), false)) + shown_from(b, ends_inside(a.drop_first(), false)));
        }
    }
}

/// Text without escapes shows as it is and ends outside any escape.
proof fn lemma_plain_shown(s: Seq<char>)
    requires
        plain(s),
    ensures
        shown(s) == s,
        closed(s),
    decreases s.len(),
{
    if s.len() > 0 {
        assert(plain(s.drop_first()));
        lemma_plain_shown(s.drop_first());
        assert(seq![s[0]] + s.drop_first() =~= s);
    }
}

/// Appending a closed piece to closed text shows what each shows, one after the other.
proof fn lemma_append_shown(out: Seq<char>, piece: Seq<char>)
    requires
        closed(out),
        closed(piece),
    ensures
        shown(out + piece) == shown(out) + shown(piece),
        closed(out + piece),
{
    lemma_shown_concat(out, piece, false);
}

/// Appending text without escapes to closed text shows that text after what it showed.
proof fn lemma_append_plain(out: Seq<char>, piece: Seq<char>)
    requires
        closed(out),
        plain(piece),
    ensures
        shown(out + piece) == shown(out) + piece,
        closed(out + piece),
{
    lemma_plain_shown(piece);
    lemma_append_shown(out, piece);
}

/// An escape `\x1b[`, some digits and semicolons, and `m` shows nothing and ends outside.
proof fn lemma_escape_hidden(s: Seq<char>)
    requires
        s.len() >= 2,
        s[0] == '\u{1b}',
        s.last() == 'm',
        forall|i: int| 1 <= i < s.len() - 1 ==> s[i] != 'm',
    ensures
        shown(s) == Seq::<char>::empty(),
        closed(s),
{
    lemma_inside_until_m(s.drop_first());
    assert(s.drop_first().last() == 'm');
}

/// Inside an escape, reading up to and through its `m` shows nothing and leaves the escape.
proof fn lemma_inside_until_m(s: Seq<char>)
    requires
        s.len() >= 1,
        s.last() == 'm',
        forall|i: int| 0 <= i < s.len() - 1 ==> s[i] != 'm',
    ensures
        shown_from(s, true) == Seq::<char>::empty(),
        !ends_inside(s, true),
    decreases s.len(),
{
    if s.len() > 1 {
        assert(s[0] != 'm');
        assert(s.drop_first().last() == 'm');
        assert forall|i: int| 0 <= i < s.drop_first().len() - 1 implies s.drop_first()[i] != 'm' by {
            assert(s.drop_first()[i] == s[i + 1]);
        }
        lemma_inside_until_m(s.drop_first());
    } else {
        assert(s[0] == 'm');
        assert(s.drop_first().len() == 0);
        assert(shown_from(s.drop_first(), false) == Seq::<char>::empty());
        assert(!ends_inside(s.drop_first(), false));
    }
}

pub const COMMENT: u8 = 1;

pub const OPCODE: u8 = 2;

pub const ID: u8 = 3;

pub const VARIABLE: u8 = 4;

pub const STRING: u8 = 5;

pub const NUMBER: u8 = 6;

pub const KEY: u8 = 7;

/// The escape that switches to the color `color` names; none for no color.
pub open spec fn color_code_spec(color: u8) -> Seq<char> {
    if color == COMMENT {
        "\x1b[90m"@
    } else if color == OPCODE {
        "\x1b[1;34m"@
    } else if color == ID {
        "\x1b[36m"@
    } else if color == VARIABLE {
        "\x1b[35m"@
    } else if color == STRING {
        "\x1b[32m"@
    } else if color == NUMBER {
        "\x1b[33m"@
    } else if color == KEY {
        "\x1b[37m"@
    } else {
        ""@
    }
}

/// Every color's escape, and the one that resets the color, shows nothing.
proof fn lemma_codes_hidden(color: u8)
    ensures
        shown(color_code_spec(color)) == Seq::<char>::empty(),
        closed(color_code_spec(color)),
        shown(RESET@) == Seq::<char>::empty(),
        closed(RESET@),
{
    reveal_strlit("\x1b[0m");
    lemma_escape_hidden(RESET@);
    if color == COMMENT {
        reveal_strlit("\x1b[90m");
        lemma_escape_hidden("\x1b[90m"@);
    } else if color == OPCODE {
        reveal_strlit("\x1b[1;34m");
        lemma_escape_hidden("\x1b[1;34m"@);
    } else if color == ID {
        reveal_strlit("\x1b[36m");
        lemma_escape_hidden("\x1b[36m"@);
    } else if color == VARIABLE {
        reveal_strlit("\x1b[35m");
        lemma_escape_hidden("\x1b[35m"@);
    } else if color == STRING {
        reveal_strlit("\x1b[32m");
        lemma_escape_hidden("\x1b[32m"@);
    } else if color == NUMBER {
        reveal_strlit("\x1b[33m");
        lemma_escape_hidden("\x1b[33m"@);
    } else if color == KEY {
        reveal_strlit("\x1b[37m");
        lemma_escape_hidden("\x1b[37m"@);
    } else {
        reveal_strlit("");
    }
}

pub fn color_code(color: u8) -> (r: &'static str)
    ensures
        r@ == color_code_spec(color),
{
    if color == COMMENT {
        "\x1b[90m"
    } else if color == OPCODE {
        "\x1b[1;34m"
    } else if color == ID {
        "\x1b[36m"
    } else if color == VARIABLE {
        "\x1b[35m"
    } else if color == STRING {
        "\x1b[32m"
    } else if color == NUMBER {
        "\x1b[33m"
    } else if color == KEY {
        "\x1b[37m"
    } else {
        ""
    }
}

/// `text` in `color`, going back to `base` after it; as it is where the two are the same.
/// What it appends shows as `text`.
pub fn token(out: &mut String, color: u8, text: &str, base: u8)
    ensures
        final(out)@ == old(out)@ + if color == base {
            text@
        } else {
            color_code_spec(color) + text@ + RESET@ + color_code_spec(base)
        },
        closed(old(out)@) && plain(text@) ==> closed(final(out)@) && shown(final(out)@) == shown(old(out)@) + text@,
{
    let ghost start = out@;
    if color == base {
        proof {
            if closed(start) && plain(text@) {
                lemma_append_plain(start, text@);
            }
        }
        push(out, text);
        return;
    }
    push(out, color_code(color));
    push(out, text);
    push(out, RESET);
    push(out, color_code(base));
    proof {
        assert(out@ =~= start + (color_code_spec(color) + text@ + RESET@ + color_code_spec(base)));
        if closed(start) && plain(text@) {
            lemma_codes_hidden(color);
            lemma_codes_hidden(base);
            lemma_append_shown(start, color_code_spec(color));
            lemma_append_plain(start + color_code_spec(color), text@);
            lemma_append_shown(start + color_code_spec(color) + text@, RESET@);
            lemma_append_shown(start + color_code_spec(color) + text@ + RESET@, color_code_spec(base));
            assert(start + color_code_spec(color) + text@ + RESET@ + color_code_spec(base) =~= start
                + (color_code_spec(color) + text@ + RESET@ + color_code_spec(base)));
            assert(shown(start) + Seq::<char>::empty() + text@ + Seq::<char>::empty() + Seq::<char>::empty() =~= shown(start) + text@);
        }
    }
}

/// The length of the word `text` starts with: letters, digits and underscores.
pub fn word_end(text: &str) -> (r: usize)
    ensures
        r <= text@.len(),
        forall|k: int| 0 <= k < r ==> #[trigger] word_char(text@[k]),
        r < text@.len() ==> !word_char(text@[r as int]),
{
    let n = text.unicode_len();
    let mut i: usize = 0;
    while i < n
        invariant
            i <= n,
            n == text@.len(),
            forall|k: int| 0 <= k < i ==> #[trigger] word_char(text@[k]),
        decreases n - i,
    {
        let c = text.get_char(i);
        if !(is_alphanumeric(c) || c == '_') {
            return i;
        }
        i = i + 1;
    }
    n
}

/// A character that continues a word: a letter, a digit or `_`.
pub open spec fn word_char(c: char) -> bool {
    alphanumeric(c) || c == '_'
}

/// A character that continues a number at `i` of `text`: a digit, a point, or an `x` before a
/// digit.
pub open spec fn number_char(text: Seq<char>, i: int) -> bool {
    let c = text[i];
    ('0' <= c <= '9') || c == '.' || (c == 'x' && i + 1 < text.len() && '0' <= text[i + 1] <= '9')
}

/// The length of the number `text` starts with: digits, points, and an `x` followed by a digit.
pub fn number_end(text: &str) -> (r: usize)
    ensures
        r <= text@.len(),
        forall|k: int| 0 <= k < r ==> #[trigger] number_char(text@, k),
        r < text@.len() ==> !number_char(text@, r as int),
{
    let n = text.unicode_len();
    let mut end: usize = 0;
    let mut i: usize = 0;
    while i < n
        invariant
            i <= n,
            end == i,
            n == text@.len(),
            forall|k: int| 0 <= k < i ==> #[trigger] number_char(text@, k),
        decreases n - i,
    {
        let c = text.get_char(i);
        let next_is_digit = i + 1 < n && is_ascii_digit(text.get_char(i + 1));
        if !(is_ascii_digit(c) || c == '.' || (c == 'x' && next_is_digit)) {
            return end;
        }
        end = i + 1;
        i = i + 1;
    }
    end
}

/// `text` painted `color` inside a run painted `base`: as it is where the two agree, else
/// opened in its own color and closed back into `base`.
pub open spec fn painted(color: u8, text: Seq<char>, base: u8) -> Seq<char> {
    if color == base {
        text
    } else {
        color_code_spec(color) + text + RESET@ + color_code_spec(base)
    }
}

/// How many characters of `s` from `i` on continue a word.
pub open spec fn word_run(s: Seq<char>, i: int) -> int
    decreases s.len() - i,
{
    if i < 0 || i >= s.len() || !word_char(s[i]) {
        0
    } else {
        1 + word_run(s, i + 1)
    }
}

/// How many characters of `s` from `i` on continue a number.
pub open spec fn number_run(s: Seq<char>, i: int) -> int
    decreases s.len() - i,
{
    if i < 0 || i >= s.len() || !number_char(s, i) {
        0
    } else {
        1 + number_run(s, i + 1)
    }
}

/// Where a string that `s` opens ends, looking for its closing quote from `k` on: just after
/// that quote, or at the end of `s` where there is none.
pub open spec fn string_end(s: Seq<char>, k: int) -> int
    decreases s.len() - k,
{
    if k >= s.len() {
        s.len() as int
    } else if s[k] == '"' {
        k + 1
    } else {
        string_end(s, k + 1)
    }
}

/// How long the operand `s` opens with is: a string through its closing quote; an id, a
/// variable or a pipeline with the word after its sigil; a number; a word; or one character.
pub open spec fn operand_len(s: Seq<char>) -> int {
    let c = s[0];
    if c == '"' {
        string_end(s, 1)
    } else if c == '%' || c == '$' || c == '#' {
        word_run(s, 1) + 1
    } else if '0' <= c <= '9' {
        if number_run(s, 0) == 0 { 1 } else { number_run(s, 0) }
    } else if alphabetic(c) || c == '_' {
        if word_run(s, 0) == 0 { 1 } else { word_run(s, 0) }
    } else {
        1
    }
}

/// The color of the operand `s` opens with, painted inside a run painted `base`: strings,
/// ids, variables, pipelines and numbers their own, a word followed by `=` that of a key (of a
/// comment inside one), and nothing for the rest.
pub open spec fn operand_color(s: Seq<char>, base: u8) -> Option<u8> {
    let c = s[0];
    if c == '"' {
        Some(STRING)
    } else if c == '$' {
        Some(VARIABLE)
    } else if c == '#' {
        Some(NUMBER)
    } else if c == '%' {
        Some(ID)
    } else if '0' <= c <= '9' {
        Some(NUMBER)
    } else if (alphabetic(c) || c == '_') && operand_len(s) < s.len() && s[operand_len(s)] == '=' {
        Some(if base == COMMENT { COMMENT } else { KEY })
    } else {
        None
    }
}

/// `s` with each of its operands painted as [`operand_color`] gives it, inside a run painted
/// `base`.
pub open spec fn operands_painted(s: Seq<char>, base: u8) -> Seq<char>
    decreases s.len(),
{
    if s.len() == 0 {
        Seq::empty()
    } else {
        let t = if 1 <= operand_len(s) <= s.len() { operand_len(s) } else { 1 };
        let head = s.subrange(0, t);
        (match operand_color(s, base) {
            Some(color) => painted(color, head, base),
            None => head,
        }) + operands_painted(s.subrange(t, s.len() as int), base)
    }
}

/// What the ends a scan found are, in terms of the runs they end.
proof fn lemma_word_run(s: Seq<char>, i: int, r: int)
    requires
        0 <= i,
        0 <= r,
        i + r <= s.len(),
        forall|k: int| i <= k < i + r ==> #[trigger] word_char(s[k]),
        i + r < s.len() ==> !word_char(s[i + r]),
    ensures
        word_run(s, i) == r,
    decreases r,
{
    if r > 0 {
        lemma_word_run(s, i + 1, r - 1);
    }
}

proof fn lemma_number_run(s: Seq<char>, i: int, r: int)
    requires
        0 <= i,
        0 <= r,
        i + r <= s.len(),
        forall|k: int| i <= k < i + r ==> #[trigger] number_char(s, k),
        i + r < s.len() ==> !number_char(s, i + r),
    ensures
        number_run(s, i) == r,
    decreases r,
{
    if r > 0 {
        lemma_number_run(s, i + 1, r - 1);
    }
}

proof fn lemma_string_end(s: Seq<char>, k: int, end: int)
    requires
        1 <= k <= s.len(),
        forall|q: int| k <= q < end - 1 ==> s[q] != '"',
        (end == s.len() && forall|q: int| k <= q < s.len() ==> s[q] != '"') || (k < end <= s.len() && s[end - 1] == '"'),
    ensures
        string_end(s, k) == end,
    decreases s.len() - k,
{
    if k < s.len() && s[k] != '"' {
        lemma_string_end(s, k + 1, end);
    }
}

/// Colors the operands of `text`: strings, ids, variables, pipelines, numbers, and the keys
/// of `key=value` pairs, going back to `base` after each. What it appends shows as `text`.
pub fn highlight_operands(out: &mut String, text: &str, base: u8)
    ensures
        final(out)@ == old(out)@ + operands_painted(text@, base),
        closed(old(out)@) && plain(text@) ==> closed(final(out)@) && shown(final(out)@) == shown(old(out)@) + text@,
{
    let ghost start = out@;
    let n = text.unicode_len();
    let mut at: usize = 0;
    proof {
        assert(text@.subrange(0, n as int) =~= text@);
    }
    while at < n
        invariant
            at <= n,
            n == text@.len(),
            closed(start) && plain(text@) ==> closed(out@) && shown(out@) == shown(start) + text@.take(at as int),
            out@ + operands_painted(text@.subrange(at as int, n as int), base) == start + operands_painted(text@, base),
        decreases n - at,
    {
        let rest = text.substring_char(at, n);
        let ghost before = out@;
        let ghost r = rest@;
        proof {
            assert(r =~= text@.subrange(at as int, n as int));
            if plain(text@) {
                assert(plain(r));
            }
        }
        let taken = paint_operand(out, rest, base);
        proof {
            assert(r.subrange(taken as int, r.len() as int) =~= text@.subrange(at + taken, n as int));
            if closed(start) && plain(text@) {
                assert(text@.take(at as int) + rest@.subrange(0, taken as int) =~= text@.take(at + taken));
            }
        }
        at = at + taken;
    }
    proof {
        assert(text@.take(n as int) =~= text@);
        assert(operands_painted(text@.subrange(n as int, n as int), base) =~= Seq::<char>::empty());
    }
}

/// Paints the operand `rest` opens with, inside a run painted `base`, and says how long it is.
fn paint_operand(out: &mut String, rest: &str, base: u8) -> (taken: usize)
    requires
        rest@.len() > 0,
    ensures
        1 <= taken <= rest@.len(),
        taken == operand_len(rest@),
        final(out)@ == old(out)@ + (match operand_color(rest@, base) {
            Some(color) => painted(color, rest@.subrange(0, taken as int), base),
            None => rest@.subrange(0, taken as int),
        }),
        closed(old(out)@) && plain(rest@) ==> closed(final(out)@) && shown(final(out)@) == shown(old(out)@)
            + rest@.subrange(0, taken as int),
{
    let key = if base == COMMENT { COMMENT } else { KEY };
    let left = rest.unicode_len();
    let head = rest.get_char(0);
    let ghost before = out@;
    let ghost r = rest@;
    if head == '"' {
        let mut end: usize = left;
        let mut found = false;
        let mut k: usize = 1;
        while k < left && !found
            invariant
                1 <= k <= left,
                left == rest@.len(),
                !found ==> end == left && forall|q: int| 1 <= q < k ==> rest@[q] != '"',
                found ==> 1 < end <= left && rest@[end - 1] == '"' && forall|q: int| 1 <= q < end - 1 ==> rest@[q] != '"',
            decreases left - k,
        {
            if rest.get_char(k) == '"' {
                end = k + 1;
                found = true;
            }
            k = k + 1;
        }
        proof {
            lemma_string_end(r, 1, end as int);
            if plain(r) {
                assert(plain(r.subrange(0, end as int)));
            }
        }
        token(out, STRING, rest.substring_char(0, end), base);
        end
    } else if head == '%' || head == '$' || head == '#' {
        let word = rest.substring_char(1, left);
        let end0 = word_end(word);
        proof {
            assert forall|q: int| 1 <= q < 1 + end0 implies #[trigger] word_char(r[q]) by {
                assert(word@[q - 1] == r[q]);
                assert(word_char(word@[q - 1]));
            }
            if 1 + end0 < r.len() {
                assert(word@[end0 as int] == r[1 + end0]);
            }
            lemma_word_run(r, 1, end0 as int);
        }
        let end = end0 + 1;
        let color = if head == '$' {
            VARIABLE
        } else if head == '#' {
            NUMBER
        } else {
            ID
        };
        proof {
            if plain(r) {
                assert(plain(r.subrange(0, end as int)));
            }
        }
        token(out, color, rest.substring_char(0, end), base);
        end
    } else if is_ascii_digit(head) {
        let end0 = number_end(rest);
        proof {
            lemma_number_run(r, 0, end0 as int);
        }
        let end = if end0 == 0 { 1 } else { end0 };
        proof {
            if plain(r) {
                assert(plain(r.subrange(0, end as int)));
            }
        }
        token(out, NUMBER, rest.substring_char(0, end), base);
        end
    } else if is_alphabetic(head) || head == '_' {
        let end0 = word_end(rest);
        proof {
            lemma_word_run(r, 0, end0 as int);
        }
        let end = if end0 == 0 { 1 } else { end0 };
        let followed = end < left && rest.get_char(end) == '=';
        proof {
            if plain(r) {
                assert(plain(r.subrange(0, end as int)));
            }
        }
        if followed {
            token(out, key, rest.substring_char(0, end), base);
        } else {
            proof {
                if closed(before) && plain(r) {
                    lemma_append_plain(before, rest@.subrange(0, end as int));
                }
            }
            push(out, rest.substring_char(0, end));
        }
        end
    } else {
        proof {
            if closed(before) && plain(r) {
                assert(plain(r.subrange(0, 1)));
                lemma_append_plain(before, rest@.subrange(0, 1));
            }
        }
        push(out, rest.substring_char(0, 1));
        1
    }
}

/// How many white space characters `text` starts with.
fn leading_white_space(text: &str) -> (r: usize)
    ensures
        r <= text@.len(),
        forall|k: int| 0 <= k < r ==> #[trigger] white_space(text@[k]),
        r < text@.len() ==> !white_space(text@[r as int]),
{
    let n = text.unicode_len();
    let mut i: usize = 0;
    while i < n
        invariant
            i <= n,
            n == text@.len(),
            forall|k: int| 0 <= k < i ==> #[trigger] white_space(text@[k]),
        decreases n - i,
    {
        if !is_whitespace(text.get_char(i)) {
            return i;
        }
        i = i + 1;
    }
    n
}

/// How many characters of `s` from `i` on are white space.
pub open spec fn space_run(s: Seq<char>, i: int) -> int
    decreases s.len() - i,
{
    if i < 0 || i >= s.len() || !white_space(s[i]) {
        0
    } else {
        1 + space_run(s, i + 1)
    }
}

/// `s` holds ` = ` at `q`.
pub open spec fn splits_at(s: Seq<char>, q: int) -> bool {
    0 <= q && q + 3 <= s.len() && s[q] == ' ' && s[q + 1] == '=' && s[q + 2] == ' '
}

/// The first place from `i` on where `s` holds ` = `.
pub open spec fn split_at(s: Seq<char>, i: int) -> Option<int>
    decreases s.len() - i,
{
    if i < 0 || i + 3 > s.len() {
        None
    } else if splits_at(s, i) {
        Some(i)
    } else {
        split_at(s, i + 1)
    }
}

/// A line of a dump painted: a comment all in the comment color, its operands painted inside
/// it; an instruction's id in the id color, its opcode in the opcode color and its operands
/// painted; any other line its operands painted.
pub open spec fn line_painted(line: Seq<char>) -> Seq<char> {
    let lead = space_run(line, 0);
    if lead < line.len() && line[lead] == ';' {
        color_code_spec(COMMENT) + operands_painted(line, COMMENT) + RESET@
    } else {
        match split_at(line, 0) {
            None => operands_painted(line, 0),
            Some(at) => instruction_painted(line, at),
        }
    }
}

/// An instruction's line painted, ` = ` at `at` splitting its id from its body: the id in the
/// id color, the opcode in the opcode color, the operands painted.
pub open spec fn instruction_painted(line: Seq<char>, at: int) -> Seq<char> {
    let id = line.subrange(0, at);
    let body = line.subrange(at + 3, line.len() as int);
    let padding = space_run(id, 0);
    let indent = space_run(body, 0);
    let opcode = indent + word_run(body, indent);
    id.subrange(0, padding) + painted(ID, id.subrange(padding, at), 0) + " = "@ + body.subrange(0, indent) + painted(
        OPCODE,
        body.subrange(indent, opcode),
        0,
    ) + operands_painted(body.subrange(opcode, body.len() as int), 0)
}

proof fn lemma_space_run(s: Seq<char>, i: int, r: int)
    requires
        0 <= i,
        0 <= r,
        i + r <= s.len(),
        forall|k: int| i <= k < i + r ==> #[trigger] white_space(s[k]),
        i + r < s.len() ==> !white_space(s[i + r]),
    ensures
        space_run(s, i) == r,
    decreases r,
{
    if r > 0 {
        lemma_space_run(s, i + 1, r - 1);
    }
}

proof fn lemma_split_at(s: Seq<char>, i: int, found: Option<int>)
    requires
        0 <= i,
        forall|q: int| i <= q && (found matches Some(f) ==> q < f) ==> !#[trigger] splits_at(s, q),
        found matches Some(f) ==> i <= f && splits_at(s, f),
    ensures
        split_at(s, i) == found,
    decreases s.len() - i,
{
    if i + 3 <= s.len() {
        if !(found matches Some(f) && f == i) {
            lemma_split_at(s, i + 1, found);
        }
    }
}

/// Colors one line of a dump: a comment all in the comment color, an instruction's id, its
/// opcode and its operands each in theirs. What it appends shows as `line`.
#[verifier::spinoff_prover]
#[verifier::rlimit(100)]
pub fn highlight_line(out: &mut String, line: &str)
    ensures
        final(out)@ == old(out)@ + line_painted(line@),
        closed(old(out)@) && plain(line@) ==> closed(final(out)@) && shown(final(out)@) == shown(old(out)@) + line@,
{
    let ghost start = out@;
    let n = line.unicode_len();
    let lead = leading_white_space(line);
    proof {
        lemma_space_run(line@, 0, lead as int);
    }
    if lead < n && line.get_char(lead) == ';' {
        push(out, color_code(COMMENT));
        let ghost opened = out@;
        highlight_operands(out, line, COMMENT);
        let ghost painted = out@;
        push(out, RESET);
        proof {
            if closed(start) && plain(line@) {
                lemma_codes_hidden(COMMENT);
                lemma_append_shown(start, color_code_spec(COMMENT));
                lemma_append_shown(painted, RESET@);
                assert(shown(start) + Seq::<char>::empty() == shown(start));
            }
        }
        return;
    }
    let mut split: Option<usize> = None;
    let mut i: usize = 0;
    while n >= 3 && i <= n - 3
        invariant_except_break
            split is None,
        invariant
            n == line@.len(),
            forall|q: int| 0 <= q < i ==> !#[trigger] splits_at(line@, q),
        ensures
            split matches Some(k) ==> k + 3 <= n && line@[k as int] == ' ' && line@[k + 1] == '=' && line@[k + 2] == ' '
                && forall|q: int| 0 <= q < k ==> !#[trigger] splits_at(line@, q),
            split is None ==> forall|q: int| 0 <= q ==> !#[trigger] splits_at(line@, q),
        decreases n - i,
    {
        if line.get_char(i) == ' ' && line.get_char(i + 1) == '=' && line.get_char(i + 2) == ' ' {
            split = Some(i);
            break;
        }
        proof {
            assert(!splits_at(line@, i as int));
        }
        i = i + 1;
    }
    proof {
        match split {
            Some(k) => {
                assert(splits_at(line@, k as int));
                lemma_split_at(line@, 0, Some(k as int));
            },
            None => {
                lemma_split_at(line@, 0, None);
            },
        }
    }
    let at = match split {
        Some(at) => at,
        None => {
            highlight_operands(out, line, 0);
            return;
        },
    };
    proof {
        if closed(start) && plain(line@) {
            assert(plain(line@));
        }
    }
    paint_instruction(out, line, at);
}

/// Paints an instruction's line, ` = ` at `at` splitting its id from its body.
#[verifier::spinoff_prover]
#[verifier::rlimit(60)]
fn paint_instruction(out: &mut String, line: &str, at: usize)
    requires
        splits_at(line@, at as int),
    ensures
        final(out)@ == old(out)@ + instruction_painted(line@, at as int),
        closed(old(out)@) && plain(line@) ==> closed(final(out)@) && shown(final(out)@) == shown(old(out)@) + line@,
{
    let ghost start = out@;
    let n = line.unicode_len();
    let id = line.substring_char(0, at);
    let body = line.substring_char(at + 3, n);
    let padding = leading_white_space(id);
    proof {
        lemma_space_run(id@, 0, padding as int);
    }
    let ghost s0 = out@;
    push(out, id.substring_char(0, padding));
    let ghost s1 = out@;
    token(out, ID, id.substring_char(padding, at), 0);
    let ghost s2 = out@;
    push(out, " = ");
    let ghost s3 = out@;
    let body_len = n - (at + 3);
    let body_indent = leading_white_space(body);
    proof {
        lemma_space_run(body@, 0, body_indent as int);
    }
    let mut opcode = body_len;
    let mut k: usize = body_indent;
    while k < body_len
        invariant_except_break
            opcode == body_len,
        invariant
            body_indent <= k <= body_len,
            body_len == body@.len(),
            forall|q: int| body_indent <= q < k ==> #[trigger] word_char(body@[q]),
        ensures
            body_indent <= opcode <= body_len,
            forall|q: int| body_indent <= q < opcode ==> #[trigger] word_char(body@[q]),
            opcode < body_len ==> !word_char(body@[opcode as int]),
        decreases body_len - k,
    {
        let c = body.get_char(k);
        if !(is_alphanumeric(c) || c == '_') {
            opcode = k;
            break;
        }
        k = k + 1;
    }
    proof {
        lemma_word_run(body@, body_indent as int, opcode - body_indent);
    }
    push(out, body.substring_char(0, body_indent));
    let ghost s4 = out@;
    token(out, OPCODE, body.substring_char(body_indent, opcode), 0);
    let ghost s5 = out@;
    highlight_operands(out, body.substring_char(opcode, body_len), 0);
    proof {
        if closed(start) && plain(line@) {
            reveal_strlit(" = ");
            lemma_append_plain(s0, id@.subrange(0, padding as int));
            lemma_append_plain(s2, " = "@);
            lemma_append_plain(s3, body@.subrange(0, body_indent as int));
            assert(line@[at as int] == ' ' && line@[at + 1] == '=' && line@[at + 2] == ' ');
            assert(" = "@ =~= line@.subrange(at as int, at + 3));
            assert(id@.subrange(0, padding as int) + id@.subrange(padding as int, at as int) + " = "@ + body@.subrange(
                0,
                body_indent as int,
            ) + body@.subrange(body_indent as int, opcode as int) + body@.subrange(opcode as int, body_len as int)
                =~= line@);
            assert(shown(out@) =~= shown(start) + line@);
        }
        reveal_strlit(" = ");
        assert(id@ =~= line@.subrange(0, at as int));
        assert(body@ =~= line@.subrange(at + 3, n as int));
        assert(out@ =~= start + instruction_painted(line@, at as int));
    }
}

/// Where the line of `s` that starts at `i` ends: at its line break, or at the end of `s`.
pub open spec fn line_end(s: Seq<char>, i: int) -> int
    decreases s.len() - i,
{
    if i < 0 || i >= s.len() {
        s.len() as int
    } else if s[i] == '\n' {
        i
    } else {
        line_end(s, i + 1)
    }
}

/// `s` with each of its lines painted as [`line_painted`] gives, each ended by a line break.
pub open spec fn text_painted(s: Seq<char>) -> Seq<char>
    decreases s.len(),
{
    if s.len() == 0 {
        Seq::empty()
    } else {
        let e = line_end(s, 0);
        if 0 <= e < s.len() {
            line_painted(s.subrange(0, e)) + "\n"@ + text_painted(s.subrange(e + 1, s.len() as int))
        } else {
            line_painted(s) + "\n"@
        }
    }
}

proof fn lemma_line_end(s: Seq<char>, i: int, e: int)
    requires
        0 <= i <= e <= s.len(),
        forall|q: int| i <= q < e ==> s[q] != '\n',
        e < s.len() ==> s[e] == '\n',
    ensures
        line_end(s, i) == e,
    decreases e - i,
{
    if i < e {
        lemma_line_end(s, i + 1, e);
    }
}

/// `text` with every line highlighted. What it shows is `text`, with a line break after its
/// last line where it did not end in one.
pub fn highlight(text: &str) -> (r: String)
    ensures
        r@ == text_painted(text@),
        plain(text@) ==> closed(r@) && shown(r@) == if text@.len() == 0 || text@.last() == '\n' {
            text@
        } else {
            text@.push('\n')
        },
{
    let mut out = String::new();
    let n = text.unicode_len();
    let mut start: usize = 0;
    proof {
        reveal_strlit("\n");
        assert(out@ =~= Seq::<char>::empty());
        assert(shown(out@) =~= Seq::<char>::empty());
        assert(text@.take(0) =~= Seq::<char>::empty());
        assert(text@.subrange(0, n as int) =~= text@);
    }
    while start < n
        invariant
            start <= n,
            n == text@.len(),
            plain(text@) ==> closed(out@),
            plain(text@) ==> (start < n || n == 0 || text@.last() == '\n' ==> shown(out@) == text@.take(start as int)),
            plain(text@) ==> (start == n && n > 0 && text@.last() != '\n' ==> shown(out@) == text@.push('\n')),
            start > 0 ==> text@[start - 1] == '\n' || start == n,
            out@ + text_painted(text@.subrange(start as int, n as int)) == text_painted(text@),
        decreases n - start,
    {
        let mut end = start;
        while end < n && text.get_char(end) != '\n'
            invariant
                start <= end <= n,
                n == text@.len(),
                forall|q: int| start <= q < end ==> text@[q] != '\n',
            decreases n - end,
        {
            end = end + 1;
        }
        let ghost before = out@;
        proof {
            let rest = text@.subrange(start as int, n as int);
            assert forall|q: int| 0 <= q < end - start implies rest[q] != '\n' by {
                assert(rest[q] == text@[start + q]);
            }
            if end < n {
                assert(rest[end - start] == text@[end as int]);
            }
            lemma_line_end(rest, 0, end - start);
            assert(rest.subrange(0, end - start) =~= text@.subrange(start as int, end as int));
            if end < n {
                assert(rest.subrange(end - start + 1, rest.len() as int) =~= text@.subrange(end + 1, n as int));
            }
        }
        highlight_line(&mut out, text.substring_char(start, end));
        let ghost lined = out@;
        push(&mut out, "\n");
        proof {
            reveal_strlit("\n");
            if plain(text@) {
                assert(plain(text@.subrange(start as int, end as int)));
                assert("\n"@ =~= seq!['\n']);
                lemma_append_plain(lined, "\n"@);
                assert(shown(before) == text@.take(start as int));
                if end < n {
                    assert(text@[end as int] == '\n');
                    assert(text@.take(start as int) + text@.subrange(start as int, end as int) + seq!['\n']
                        =~= text@.take(end + 1));
                } else {
                    assert(text@.take(start as int) + text@.subrange(start as int, end as int) =~= text@);
                    if n > 0 && end > start {
                        assert(text@.last() == text@[n - 1]);
                        assert(text@[n - 1] != '\n');
                    }
                    if end == start && n > 0 {
                        assert(text@[start - 1] == '\n' || start == n);
                    }
                }
            }
        }
        start = if end < n { end + 1 } else { n };
    }
    proof {
        if plain(text@) && (n == 0 || text@.last() == '\n') {
            assert(text@.take(n as int) =~= text@);
        }
        assert(text@.subrange(n as int, n as int) =~= Seq::<char>::empty());
    }
    out
}

} // verus!
