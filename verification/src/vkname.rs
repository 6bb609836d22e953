//! The names ash gives Vulkan's raw values when it prints them.
use vstd::prelude::*;

verus! {

/// What ash's `Debug` for `vk::Format` prints for the raw value `raw` of a format.
pub uninterp spec fn format_name(raw: i32) -> Seq<char>;

/// Calls ash's `Debug` for `vk::Format` on the raw value `raw`; what it prints is
/// [`format_name`] of it.
#[verifier::external_body]
pub(crate) fn format_text(raw: i32) -> (r: String)
    ensures
        r@ == format_name(raw),
{
    format!("{:?}", ash::vk::Format::from_raw(raw))
}

/// What ash's `Debug` for `vk::ImageLayout` prints for the raw value `raw` of an image layout.
pub uninterp spec fn layout_name(raw: i32) -> Seq<char>;

/// Calls ash's `Debug` for `vk::ImageLayout` on the raw value `raw`; what it prints is
/// [`layout_name`] of it.
#[verifier::external_body]
pub(crate) fn layout_text(raw: i32) -> (r: String)
    ensures
        r@ == layout_name(raw),
{
    format!("{:?}", ash::vk::ImageLayout::from_raw(raw))
}

/// What ash's `Debug` for `vk::Filter` prints for the raw value `raw` of a filter.
pub uninterp spec fn filter_name(raw: i32) -> Seq<char>;

/// Calls ash's `Debug` for `vk::Filter` on the raw value `raw`; what it prints is
/// [`filter_name`] of it.
#[verifier::external_body]
pub(crate) fn filter_text(raw: i32) -> (r: String)
    ensures
        r@ == filter_name(raw),
{
    format!("{:?}", ash::vk::Filter::from_raw(raw))
}

/// What ash's `Debug` for `vk::PrimitiveTopology` prints for the raw value `raw` of a primitive topology.
pub uninterp spec fn topology_name(raw: i32) -> Seq<char>;

/// Calls ash's `Debug` for `vk::PrimitiveTopology` on the raw value `raw`; what it prints is
/// [`topology_name`] of it.
#[verifier::external_body]
pub(crate) fn topology_text(raw: i32) -> (r: String)
    ensures
        r@ == topology_name(raw),
{
    format!("{:?}", ash::vk::PrimitiveTopology::from_raw(raw))
}

/// What ash's `Debug` for `vk::PolygonMode` prints for the raw value `raw` of a polygon mode.
pub uninterp spec fn polygon_mode_name(raw: i32) -> Seq<char>;

/// Calls ash's `Debug` for `vk::PolygonMode` on the raw value `raw`; what it prints is
/// [`polygon_mode_name`] of it.
#[verifier::external_body]
pub(crate) fn polygon_mode_text(raw: i32) -> (r: String)
    ensures
        r@ == polygon_mode_name(raw),
{
    format!("{:?}", ash::vk::PolygonMode::from_raw(raw))
}

/// What ash's `Debug` for `vk::CullModeFlags` prints for the raw value `raw` of a set of culled faces.
pub uninterp spec fn cull_mode_name(raw: u32) -> Seq<char>;

/// Calls ash's `Debug` for `vk::CullModeFlags` on the raw value `raw`; what it prints is
/// [`cull_mode_name`] of it.
#[verifier::external_body]
pub(crate) fn cull_mode_text(raw: u32) -> (r: String)
    ensures
        r@ == cull_mode_name(raw),
{
    format!("{:?}", ash::vk::CullModeFlags::from_raw(raw))
}

/// What ash's `Debug` for `vk::FrontFace` prints for the raw value `raw` of a front face winding.
pub uninterp spec fn front_face_name(raw: i32) -> Seq<char>;

/// Calls ash's `Debug` for `vk::FrontFace` on the raw value `raw`; what it prints is
/// [`front_face_name`] of it.
#[verifier::external_body]
pub(crate) fn front_face_text(raw: i32) -> (r: String)
    ensures
        r@ == front_face_name(raw),
{
    format!("{:?}", ash::vk::FrontFace::from_raw(raw))
}

/// What ash's `Debug` for `vk::CompareOp` prints for the raw value `raw` of a compare operation.
pub uninterp spec fn compare_op_name(raw: i32) -> Seq<char>;

/// Calls ash's `Debug` for `vk::CompareOp` on the raw value `raw`; what it prints is
/// [`compare_op_name`] of it.
#[verifier::external_body]
pub(crate) fn compare_op_text(raw: i32) -> (r: String)
    ensures
        r@ == compare_op_name(raw),
{
    format!("{:?}", ash::vk::CompareOp::from_raw(raw))
}

/// What ash's `Debug` for `vk::BlendFactor` prints for the raw value `raw` of a blend factor.
pub uninterp spec fn blend_factor_name(raw: i32) -> Seq<char>;

/// Calls ash's `Debug` for `vk::BlendFactor` on the raw value `raw`; what it prints is
/// [`blend_factor_name`] of it.
#[verifier::external_body]
pub(crate) fn blend_factor_text(raw: i32) -> (r: String)
    ensures
        r@ == blend_factor_name(raw),
{
    format!("{:?}", ash::vk::BlendFactor::from_raw(raw))
}

/// What ash's `Debug` for `vk::BlendOp` prints for the raw value `raw` of a blend operation.
pub uninterp spec fn blend_op_name(raw: i32) -> Seq<char>;

/// Calls ash's `Debug` for `vk::BlendOp` on the raw value `raw`; what it prints is
/// [`blend_op_name`] of it.
#[verifier::external_body]
pub(crate) fn blend_op_text(raw: i32) -> (r: String)
    ensures
        r@ == blend_op_name(raw),
{
    format!("{:?}", ash::vk::BlendOp::from_raw(raw))
}

/// What ash's `Debug` for `vk::ColorComponentFlags` prints for the raw value `raw` of a color write mask.
pub uninterp spec fn color_mask_name(raw: u32) -> Seq<char>;

/// Calls ash's `Debug` for `vk::ColorComponentFlags` on the raw value `raw`; what it prints is
/// [`color_mask_name`] of it.
#[verifier::external_body]
pub(crate) fn color_mask_text(raw: u32) -> (r: String)
    ensures
        r@ == color_mask_name(raw),
{
    format!("{:?}", ash::vk::ColorComponentFlags::from_raw(raw))
}

/// What ash's `Debug` for `vk::IndexType` prints for the raw value `raw` of an index type.
pub uninterp spec fn index_type_name(raw: i32) -> Seq<char>;

/// Calls ash's `Debug` for `vk::IndexType` on the raw value `raw`; what it prints is
/// [`index_type_name`] of it.
#[verifier::external_body]
pub(crate) fn index_type_text(raw: i32) -> (r: String)
    ensures
        r@ == index_type_name(raw),
{
    format!("{:?}", ash::vk::IndexType::from_raw(raw))
}

/// What ash's `Debug` for `vk::PipelineBindPoint` prints for the raw value `raw` of a pipeline bind point.
pub uninterp spec fn bind_point_name(raw: i32) -> Seq<char>;

/// Calls ash's `Debug` for `vk::PipelineBindPoint` on the raw value `raw`; what it prints is
/// [`bind_point_name`] of it.
#[verifier::external_body]
pub(crate) fn bind_point_text(raw: i32) -> (r: String)
    ensures
        r@ == bind_point_name(raw),
{
    format!("{:?}", ash::vk::PipelineBindPoint::from_raw(raw))
}

/// What ash's `Debug` for `vk::ImageViewType` prints for the raw value `raw` of an image view type.
pub uninterp spec fn view_type_name(raw: i32) -> Seq<char>;

/// Calls ash's `Debug` for `vk::ImageViewType` on the raw value `raw`; what it prints is
/// [`view_type_name`] of it.
#[verifier::external_body]
pub(crate) fn view_type_text(raw: i32) -> (r: String)
    ensures
        r@ == view_type_name(raw),
{
    format!("{:?}", ash::vk::ImageViewType::from_raw(raw))
}

/// What ash's `Debug` for `vk::BufferUsageFlags` prints for the raw value `raw` of a set of buffer usages.
pub uninterp spec fn buffer_usage_name(raw: u32) -> Seq<char>;

/// Calls ash's `Debug` for `vk::BufferUsageFlags` on the raw value `raw`; what it prints is
/// [`buffer_usage_name`] of it.
#[verifier::external_body]
pub(crate) fn buffer_usage_text(raw: u32) -> (r: String)
    ensures
        r@ == buffer_usage_name(raw),
{
    format!("{:?}", ash::vk::BufferUsageFlags::from_raw(raw))
}

/// What ash's `Debug` for `vk::Buffer` prints for the raw value `raw` of a buffer handle.
pub uninterp spec fn buffer_handle_name(raw: u64) -> Seq<char>;

/// Calls ash's `Debug` for `vk::Buffer` on the raw value `raw`; what it prints is
/// [`buffer_handle_name`] of it.
#[verifier::external_body]
pub(crate) fn buffer_handle_text(raw: u64) -> (r: String)
    ensures
        r@ == buffer_handle_name(raw),
{
    format!("{:?}", <ash::vk::Buffer as ash::vk::Handle>::from_raw(raw))
}

/// What ash's `Debug` for `vk::Image` prints for the raw value `raw` of an image handle.
pub uninterp spec fn image_handle_name(raw: u64) -> Seq<char>;

/// Calls ash's `Debug` for `vk::Image` on the raw value `raw`; what it prints is
/// [`image_handle_name`] of it.
#[verifier::external_body]
pub(crate) fn image_handle_text(raw: u64) -> (r: String)
    ensures
        r@ == image_handle_name(raw),
{
    format!("{:?}", <ash::vk::Image as ash::vk::Handle>::from_raw(raw))
}

/// What ash's `Debug` for `vk::ImageView` prints for the raw value `raw` of an image view handle.
pub uninterp spec fn image_view_handle_name(raw: u64) -> Seq<char>;

/// Calls ash's `Debug` for `vk::ImageView` on the raw value `raw`; what it prints is
/// [`image_view_handle_name`] of it.
#[verifier::external_body]
pub(crate) fn image_view_handle_text(raw: u64) -> (r: String)
    ensures
        r@ == image_view_handle_name(raw),
{
    format!("{:?}", <ash::vk::ImageView as ash::vk::Handle>::from_raw(raw))
}

/// What ash's `Debug` for `vk::Sampler` prints for the raw value `raw` of a sampler handle.
pub uninterp spec fn sampler_handle_name(raw: u64) -> Seq<char>;

/// Calls ash's `Debug` for `vk::Sampler` on the raw value `raw`; what it prints is
/// [`sampler_handle_name`] of it.
#[verifier::external_body]
pub(crate) fn sampler_handle_text(raw: u64) -> (r: String)
    ensures
        r@ == sampler_handle_name(raw),
{
    format!("{:?}", <ash::vk::Sampler as ash::vk::Handle>::from_raw(raw))
}

} // verus!
