use vir::access::{
    Access, ACCESS_ATTRIBUTE_READ, ACCESS_BLIT_READ, ACCESS_BLIT_WRITE, ACCESS_CLEAR, ACCESS_COLOR_READ, ACCESS_COLOR_WRITE, ACCESS_COMPUTE_READ, ACCESS_COMPUTE_SAMPLED, ACCESS_COMPUTE_WRITE, ACCESS_COPY_READ, ACCESS_COPY_WRITE, ACCESS_DEPTH_STENCIL_READ, ACCESS_DEPTH_STENCIL_WRITE, ACCESS_FRAGMENT_SAMPLED, ACCESS_FRAGMENT_WRITE, ACCESS_HOST_WRITE, ACCESS_INDEX_READ, ACCESS_INDIRECT_READ, ACCESS_PRESENT, ACCESS_VERTEX_SAMPLED, BUFFER_USAGE_SHADER_DEVICE_ADDRESS, BUFFER_USAGE_STORAGE_BUFFER, BUFFER_USAGE_VERTEX_BUFFER, DOMAIN_GRAPHICS, DOMAIN_PRESENT, IMAGE_USAGE_COLOR_ATTACHMENT, IMAGE_USAGE_DEPTH_STENCIL_ATTACHMENT, IMAGE_USAGE_SAMPLED, IMAGE_USAGE_STORAGE, IMAGE_USAGE_TRANSFER_DST, IMAGE_USAGE_TRANSFER_SRC, LAYOUT_COLOR_ATTACHMENT, LAYOUT_DEPTH_STENCIL_ATTACHMENT, LAYOUT_GENERAL, LAYOUT_READ_ONLY, LAYOUT_SHADER_READ_ONLY, LAYOUT_TRANSFER_DST, LAYOUT_TRANSFER_SRC, LAYOUT_UNDEFINED, STAGE_COMPUTE, STAGE_FRAGMENT,
};
use vir::analysis::{DescriptorBinding, PipelineBindings, Unchecked};
use vir::compile::is_global;
use vir::ids::{LabelId, PipelineId, ValueId, INVALID_ID};
use vir::ir::{
    ClearValue, Constant, Descriptor, DispatchSize, IR, DESCRIPTOR_TYPE_COMBINED_IMAGE_SAMPLER, DESCRIPTOR_TYPE_SAMPLED_IMAGE,
};
use vir::module::{resource_root, Module};
use vir::program::{Program, Value};
use vir::resource::{
    Buffer, BufferImageCopy, BufferInfo, Extent2D, Extent3D, Image, ImageAttachment, ImageInfo, MemoryLocation, Offset3D,
};
use vir::state::{
    BlendPreset, DepthState, DynamicStateFlags, PipelineState, RasterizationState, Viewport, DYNAMIC_SCISSOR,
    DYNAMIC_VIEWPORT, POLYGON_MODE_FILL, PushConstants, PushSource, Rect2D, TOPOLOGY_TRIANGLE_LIST,
};

/// Vulkan's raw `R8G8B8A8_SRGB`, `D32_SFLOAT` and `READ_ONLY_OPTIMAL`.
const FORMAT: i32 = 43;
/// Vulkan's raw `TRIANGLE_STRIP`.
const TOPOLOGY_TRIANGLE_STRIP: i32 = 4;
const DEPTH_FORMAT: i32 = 126;
const LAYOUT: i32 = LAYOUT_READ_ONLY;
const WIDTH: u32 = 64;
const HEIGHT: u32 = 32;

const COLOR_RW: Access = Access(ACCESS_COLOR_READ | ACCESS_COLOR_WRITE);
const BLACK: ClearValue = ClearValue { r: 0, g: 0, b: 0, a: 0x3f80_0000 };

fn access(bits: u32) -> Access {
    Access(bits)
}

fn extent_2d() -> Extent2D {
    Extent2D { width: WIDTH, height: HEIGHT }
}

fn extent_3d() -> Extent3D {
    Extent3D { width: WIDTH, height: HEIGHT, depth: 1 }
}

fn module_with_attachment() -> (Module, ValueId) {
    let mut module = Module::new();
    let attachment = ImageAttachment::new(Image::imported(0, FORMAT, extent_3d(), 1), FORMAT, extent_3d(), 1, LAYOUT_UNDEFINED);
    let construct = module.import_attachment(&attachment);
    module.set_name(construct, "target");
    (module, construct)
}

fn transient_info() -> ImageInfo {
    ImageInfo::color_target(extent_2d(), FORMAT)
}

fn depth_info() -> ImageInfo {
    ImageInfo::depth_target(extent_2d(), DEPTH_FORMAT)
}

fn compile(module: &Module, end: ValueId) -> Program {
    assert!(module.is_compilable(&[end]));
    module.compile(&Unchecked, end).unwrap()
}

fn compile_all(module: &Module, ends: &[ValueId]) -> Program {
    assert!(module.is_compilable(ends));
    module.compile_all(&Unchecked, ends).unwrap()
}

fn root(module: &Module, id: ValueId) -> ValueId {
    resource_root(module.instructions(), id)
}

fn access_constant(module: &Module, program: &Program, id: &ValueId) -> Access {
    program
        .instructions()
        .iter()
        .find(|(instr_id, _)| instr_id == id)
        .map(|(_, ir)| ir)
        .or_else(|| module.instructions().get(id.0 as usize))
        .and_then(|ir| match ir {
            IR::Constant(Constant::Access(a)) => Some(*a),
            _ => None,
        })
        .expect("barrier operand should be an access constant")
}

fn memory_barriers(module: &Module, program: &Program) -> Vec<(Access, Access)> {
    program
        .instructions()
        .iter()
        .filter_map(|(_, ir)| match ir {
            IR::MemoryBarrier { src_access, dst_access } => {
                Some((access_constant(module, program, src_access), access_constant(module, program, dst_access)))
            },
            _ => None,
        })
        .collect()
}

struct ImageBarrier {
    src: Access,
    dst: Access,
    old_layout: i32,
    new_layout: i32,
    resource: ValueId,
}

fn image_barriers(module: &Module, program: &Program) -> Vec<ImageBarrier> {
    program
        .instructions()
        .iter()
        .filter_map(|(_, ir)| match ir {
            IR::ImageBarrier { src_access, dst_access, old_layout, new_layout, value } => Some(ImageBarrier {
                src: access_constant(module, program, src_access),
                dst: access_constant(module, program, dst_access),
                old_layout: *old_layout,
                new_layout: *new_layout,
                resource: root(module, *value),
            }),
            _ => None,
        })
        .collect()
}

fn image_usage(program: &Program, id: ValueId) -> u32 {
    program
        .instructions()
        .iter()
        .find_map(|(instr_id, ir)| match ir {
            IR::ConstructImage { usage, .. } if *instr_id == id => Some(*usage),
            _ => None,
        })
        .expect("the image should still be declared after compiling")
}

fn draws(program: &Program) -> Vec<(PipelineId, PipelineState)> {
    program
        .instructions()
        .iter()
        .filter_map(|(_, ir)| match ir {
            IR::Draw { pipeline, state, .. } | IR::DrawIndexed { pipeline, state, .. } => Some((*pipeline, state.clone())),
            _ => None,
        })
        .collect()
}

fn dispatch_sizes(program: &Program) -> Vec<DispatchSize> {
    program
        .instructions()
        .iter()
        .filter_map(|(_, ir)| match ir {
            IR::Dispatch { size, .. } => Some(*size),
            _ => None,
        })
        .collect()
}

fn position(program: &Program, predicate: fn(&IR) -> bool) -> usize {
    program.instructions().iter().position(|(_, ir)| predicate(ir)).expect("instruction should be present")
}

#[test]
fn an_opaque_body_is_compiled_with_the_state_in_force_where_it_is_called() {
    let mut module = Module::new();
    let target = module.transient_image(&transient_info());
    let body = module.declare_callback_var("draws");

    module.begin_rendering(&[(target, COLOR_RW)]);
    module.bind_graphics_pipeline(PipelineId(3));
    module.set_primitive_topology(TOPOLOGY_TRIANGLE_STRIP);
    module.broadcast_color_blend(BlendPreset::AlphaBlend.state());
    module.record_from(body);
    let end = module.end_rendering();

    let compiled = compile(&module, end);
    let calls = compiled
        .instructions()
        .iter()
        .filter_map(|(_, ir)| match ir {
            IR::CallOpaque { pipeline, state, .. } => Some((*pipeline, state.clone())),
            _ => None,
        })
        .collect::<Vec<_>>();

    assert_eq!(calls.len(), 1, "{}", compiled.dump());
    assert_eq!(calls[0].0, PipelineId(3));
    assert_eq!(calls[0].1.topology, TOPOLOGY_TRIANGLE_STRIP);
    assert_eq!(calls[0].1.rendering.color_formats, vec![FORMAT]);
}

#[test]
fn a_region_with_an_opaque_body_still_barriers_what_it_declared() {
    let (mut module, swapchain) = module_with_attachment();
    let sampled = module.transient_image(&transient_info());
    let body = module.declare_callback_var("draws");

    let cleared = module.clear(sampled, BLACK);
    module.begin_rendering(&[(swapchain, COLOR_RW)]);
    module.bind_graphics_pipeline(PipelineId(0));
    module.access(cleared, access(ACCESS_FRAGMENT_SAMPLED));
    module.record_from(body);
    let drawn = module.end_rendering();
    let end = module.present(drawn);

    let compiled = compile(&module, end);
    let transitions = image_barriers(&module, &compiled)
        .into_iter()
        .filter(|barrier| root(&module, barrier.resource) == sampled)
        .map(|barrier| (barrier.old_layout, barrier.new_layout, barrier.dst))
        .collect::<Vec<_>>();

    assert_eq!(
        transitions,
        vec![
            (LAYOUT_UNDEFINED, LAYOUT_TRANSFER_DST, access(ACCESS_CLEAR)),
            (LAYOUT_TRANSFER_DST, LAYOUT_SHADER_READ_ONLY, access(ACCESS_FRAGMENT_SAMPLED)),
        ],
        "{}",
        compiled.dump()
    );
}

#[test]
fn the_body_of_an_opaque_pass_is_a_variable_of_the_program() {
    let mut module = Module::new();
    let target = module.transient_image(&transient_info());
    let body = module.declare_callback_var("draws");

    module.begin_rendering(&[(target, COLOR_RW)]);
    module.bind_graphics_pipeline(PipelineId(0));
    module.record_from(body);
    let end = module.end_rendering();

    let mut compiled = compile(&module, end);
    assert!(
        compiled.instructions().iter().any(|(id, ir)| *id == body && matches!(ir, IR::Variable { .. })),
        "the callback variable should survive into the program\n{}",
        compiled.dump()
    );

    compiled.set(body, Value::Callback(7));
    assert!(compiled.variables().iter().any(|variable| matches!(variable.value, Value::Callback(7))));
}

#[test]
fn a_transient_image_is_created_with_the_usage_the_graph_implies() {
    let (mut module, swapchain) = module_with_attachment();
    let target = module.transient_image(&transient_info());

    module.begin_rendering(&[(target, COLOR_RW)]);
    module.bind_graphics_pipeline(PipelineId(0));
    module.draw(3u32, 1u32);
    let rendered = module.end_rendering();
    let swapchain = module.blit(rendered, swapchain);
    let end = module.present(swapchain);

    assert_eq!(image_usage(&compile(&module, end), target), IMAGE_USAGE_COLOR_ATTACHMENT | IMAGE_USAGE_TRANSFER_SRC);
}

#[test]
fn a_blit_puts_each_side_in_its_own_transfer_layout() {
    let (mut module, destination) = module_with_attachment();
    let source = module.transient_image(&transient_info());
    let end = module.blit(source, destination);

    let compiled = compile(&module, end);
    let barriers = image_barriers(&module, &compiled);
    assert_eq!(barriers.len(), 2);

    assert_eq!(barriers[0].resource, source);
    assert_eq!(barriers[0].src, access(0));
    assert_eq!(barriers[0].dst, access(ACCESS_BLIT_READ));
    assert_eq!(barriers[0].old_layout, LAYOUT_UNDEFINED);
    assert_eq!(barriers[0].new_layout, LAYOUT_TRANSFER_SRC);

    assert_eq!(barriers[1].resource, destination);
    assert_eq!(barriers[1].dst, access(ACCESS_BLIT_WRITE));
    assert_eq!(barriers[1].new_layout, LAYOUT_TRANSFER_DST);
}

#[test]
fn an_imported_image_starts_in_the_layout_its_owner_left_it_in() {
    let mut module = Module::new();
    let image = Image::imported(0, FORMAT, extent_3d(), 1);

    let imported = module.import_image(&image, LAYOUT_TRANSFER_SRC);
    let end = module.clear(imported, BLACK);

    let compiled = compile(&module, end);
    let barriers = image_barriers(&module, &compiled);
    assert_eq!(barriers.len(), 1);
    assert_eq!(barriers[0].old_layout, LAYOUT_TRANSFER_SRC);
    assert_eq!(barriers[0].new_layout, LAYOUT_TRANSFER_DST);
}

#[test]
fn a_second_read_at_the_same_layout_does_not_repeat_the_barrier() {
    let (mut module, first) = module_with_attachment();
    let source = module.transient_image(&transient_info());

    // the second blit writes what the first one produced, so both are in the graph and the
    // source is read twice without ever leaving TRANSFER_SRC_OPTIMAL
    let first = module.blit(source, first);
    let end = module.blit(source, first);

    let compiled = compile(&module, end);
    let barriers = image_barriers(&module, &compiled);
    let reads = barriers.iter().filter(|b| b.resource == source).count();
    assert_eq!(reads, 1);

    // the destination is written twice, and a write always waits
    assert_eq!(barriers.len(), 3);
}

#[test]
fn a_release_to_the_layout_an_image_already_rests_in_costs_nothing() {
    let (mut module, destination) = module_with_attachment();
    let source = module.transient_image(&transient_info());
    let blit = module.blit(source, destination);

    let present = module.present(blit);
    let resting = module.release(source, access(ACCESS_BLIT_READ), DOMAIN_GRAPHICS);
    let compiled = compile_all(&module, &[present, resting]);

    // nothing consumes the release, so only naming it as a root keeps it
    let position = |id: ValueId| compiled.instructions().iter().position(|(instr_id, _)| *instr_id == id);
    assert!(position(resting) > position(blit));
    assert!(compile(&module, present).instructions().iter().all(|(id, _)| *id != resting));

    // and it asks for the layout the blit already left it in, so it emits no barrier
    let barriers = image_barriers(&module, &compiled);
    assert_eq!(barriers.iter().filter(|b| b.resource == source).count(), 1);
}

#[test]
fn a_release_that_does_change_the_layout_still_emits_its_barrier() {
    let (mut module, destination) = module_with_attachment();
    let source = module.transient_image(&transient_info());
    let blit = module.blit(source, destination);

    let present = module.present(blit);
    let resting = module.release(source, COLOR_RW, DOMAIN_GRAPHICS);
    let compiled = compile_all(&module, &[present, resting]);

    let barriers = image_barriers(&module, &compiled);
    let last = barriers.iter().rfind(|b| b.resource == source).expect("the source should have been transitioned");
    assert_eq!(last.old_layout, LAYOUT_TRANSFER_SRC);
    assert_eq!(last.new_layout, LAYOUT_COLOR_ATTACHMENT);
}

#[test]
fn binding_a_vertex_buffer_makes_the_host_write_visible_to_vertex_input() {
    let (mut module, attachment) = module_with_attachment();
    let buffer = module.import_buffer(&Buffer::default(), access(ACCESS_HOST_WRITE));

    module.begin_rendering(&[(attachment, COLOR_RW)]);
    module.bind_graphics_pipeline(PipelineId(0));
    module.bind_vertex_buffer(0, buffer);
    module.draw(3u32, 1u32);
    let end = module.end_rendering();

    let compiled = compile(&module, end);
    let instructions = compiled.instructions();
    assert_eq!(memory_barriers(&module, &compiled), vec![(access(ACCESS_HOST_WRITE), access(ACCESS_ATTRIBUTE_READ))]);

    let binds = instructions.iter().filter(|(_, ir)| matches!(ir, IR::BindVertexBuffers { .. })).count();
    assert_eq!(binds, 1);

    assert!(
        position(&compiled, |ir| matches!(ir, IR::MemoryBarrier { .. }))
            < position(&compiled, |ir| matches!(ir, IR::BeginRendering { .. }))
    );

    let draws = draws(&compiled);
    assert_eq!(draws.len(), 1);
    assert_eq!(draws[0].0, PipelineId(0));
    assert_eq!(draws[0].1.rendering.color_formats, vec![FORMAT]);
}

#[test]
fn a_transient_buffer_is_created_with_the_usage_the_graph_implies() {
    let (mut module, attachment) = module_with_attachment();
    let scratch = module.transient_buffer(&BufferInfo::new(256, 0, MemoryLocation::GpuOnly));

    module.begin_compute(&[]);
    module.bind_compute_pipeline(PipelineId(0));
    module.write(scratch);
    module.push_constant_address(0, scratch);
    module.dispatch(1u32, 1u32, 1u32);
    let written = module.end_compute();

    module.begin_rendering(&[(attachment, COLOR_RW)]);
    module.bind_graphics_pipeline(PipelineId(0));
    module.bind_vertex_buffer(0, written);
    module.draw(3u32, 1u32);
    let end = module.end_rendering();

    let compiled = compile(&module, end);
    let usage = compiled
        .instructions()
        .iter()
        .find_map(|(_, ir)| match ir {
            IR::ConstructBuffer { buffer, usage, .. } if buffer.handle == 0 => Some(*usage),
            _ => None,
        })
        .expect("the transient should be constructed");

    assert_eq!(
        usage,
        BUFFER_USAGE_STORAGE_BUFFER | BUFFER_USAGE_SHADER_DEVICE_ADDRESS | BUFFER_USAGE_VERTEX_BUFFER
    );
}

#[test]
fn the_first_write_to_a_transient_buffer_waits_on_nothing() {
    let mut module = Module::new();
    let scratch = module.transient_buffer(&BufferInfo::new(256, BUFFER_USAGE_STORAGE_BUFFER, MemoryLocation::GpuOnly));

    module.begin_compute(&[]);
    module.bind_compute_pipeline(PipelineId(0));
    module.write(scratch);
    module.dispatch(1u32, 1u32, 1u32);
    let written = module.end_compute();
    module.begin_compute(&[]);
    module.bind_compute_pipeline(PipelineId(0));
    module.read(written);
    module.dispatch(1u32, 1u32, 1u32);
    let end = module.end_compute();

    let compiled = compile(&module, end);
    assert_eq!(memory_barriers(&module, &compiled), vec![(access(ACCESS_COMPUTE_WRITE), access(ACCESS_COMPUTE_READ))]);
}

#[test]
fn a_transient_reached_only_by_address_is_still_built() {
    let mut module = Module::new();
    let scratch =
        module.transient_buffer(&BufferInfo::new(256, BUFFER_USAGE_SHADER_DEVICE_ADDRESS, MemoryLocation::GpuOnly));

    module.begin_compute(&[]);
    module.bind_compute_pipeline(PipelineId(0));
    module.push_constant_address(0, scratch);
    module.dispatch(1u32, 1u32, 1u32);
    let end = module.end_compute();

    let compiled = compile(&module, end);
    let constructed =
        compiled.instructions().iter().any(|(id, ir)| *id == scratch && matches!(ir, IR::ConstructBuffer { .. }));
    assert!(constructed);
}

#[test]
fn a_bound_buffer_is_one_resource_the_whole_module_shares() {
    let mut module = Module::new();
    let instances = module.declare_buffer_var("instances", access(ACCESS_HOST_WRITE));

    module.begin_compute(&[]);
    module.bind_compute_pipeline(PipelineId(0));
    module.write(instances);
    module.dispatch(1u32, 1u32, 1u32);
    let written = module.end_compute();
    module.begin_compute(&[]);
    module.bind_compute_pipeline(PipelineId(0));
    module.read(written);
    module.dispatch(1u32, 1u32, 1u32);
    let end = module.end_compute();

    let compiled = compile(&module, end);
    assert_eq!(root(&module, written), instances);
    assert_eq!(root(&module, end), instances);
    assert_eq!(
        compiled.instructions().iter().filter(|(_, ir)| matches!(ir, IR::ConstructBuffer { .. })).count(),
        1,
        "{}",
        compiled.dump()
    );
}

#[test]
fn a_bound_buffer_waits_at_the_access_it_was_declared_to_rest_at() {
    let mut module = Module::new();
    let instances = module.declare_buffer_var("instances", access(ACCESS_HOST_WRITE));

    module.begin_compute(&[]);
    module.bind_compute_pipeline(PipelineId(0));
    module.write(instances);
    module.dispatch(1u32, 1u32, 1u32);
    let written = module.end_compute();
    module.begin_compute(&[]);
    module.bind_compute_pipeline(PipelineId(0));
    module.read(written);
    module.dispatch(1u32, 1u32, 1u32);
    let end = module.end_compute();

    let compiled = compile(&module, end);
    assert_eq!(
        memory_barriers(&module, &compiled),
        vec![
            (access(ACCESS_HOST_WRITE), access(ACCESS_COMPUTE_WRITE)),
            (access(ACCESS_COMPUTE_WRITE), access(ACCESS_COMPUTE_READ)),
        ]
    );
}

#[test]
fn a_bound_buffer_records_the_usage_the_graph_implies() {
    let (mut module, attachment) = module_with_attachment();
    let vertices = module.declare_buffer_var("vertices", access(ACCESS_HOST_WRITE));

    module.begin_compute(&[]);
    module.bind_compute_pipeline(PipelineId(0));
    module.write(vertices);
    module.push_constant_address(0, vertices);
    module.dispatch(1u32, 1u32, 1u32);
    let written = module.end_compute();

    module.begin_rendering(&[(attachment, COLOR_RW)]);
    module.bind_graphics_pipeline(PipelineId(0));
    module.bind_vertex_buffer(0, written);
    module.draw(3u32, 1u32);
    let end = module.end_rendering();

    let compiled = compile(&module, end);
    let usage = compiled
        .instructions()
        .iter()
        .find_map(|(id, ir)| match ir {
            IR::ConstructBuffer { usage, .. } if *id == vertices => Some(*usage),
            _ => None,
        })
        .expect("the bound buffer should be constructed");

    assert_eq!(
        usage,
        BUFFER_USAGE_STORAGE_BUFFER | BUFFER_USAGE_SHADER_DEVICE_ADDRESS | BUFFER_USAGE_VERTEX_BUFFER
    );
}

#[test]
fn a_bound_image_leaves_the_viewport_to_be_recorded() {
    let mut module = Module::new();
    let target = module.declare_image_var("target", FORMAT, 1, LAYOUT);

    module.begin_rendering(&[(target, COLOR_RW)]);
    module.bind_graphics_pipeline(PipelineId(0));
    module.set_viewport(0, Viewport::framebuffer());
    module.set_dynamic_state(DynamicStateFlags(0));
    module.draw(3u32, 1u32);
    let end = module.end_rendering();

    let draws = draws(&compile(&module, end));
    assert_eq!(draws.len(), 1);
    assert!(draws[0].1.viewports.is_empty(), "{:?}", draws[0].1.viewports);
    assert!(draws[0].1.dynamic.0 & DYNAMIC_VIEWPORT != 0);
    assert!(draws[0].1.dynamic.0 & DYNAMIC_SCISSOR != 0);
}

#[test]
fn a_bound_image_carries_the_format_its_pipelines_are_built_against() {
    let mut module = Module::new();
    let target = module.declare_image_var("target", FORMAT, 1, LAYOUT);

    module.begin_rendering(&[(target, COLOR_RW)]);
    module.bind_graphics_pipeline(PipelineId(0));
    module.draw(3u32, 1u32);
    let end = module.end_rendering();

    let compiled = compile(&module, end);
    let draws = draws(&compiled);
    assert_eq!(draws.len(), 1);
    assert_eq!(draws[0].1.rendering.color_formats, vec![FORMAT]);

    // the layout the caller promised is what the region's first transition leaves
    let barriers = image_barriers(&module, &compiled);
    assert_eq!(barriers.len(), 1);
    assert_eq!(barriers[0].resource, target);
    assert_eq!(barriers[0].old_layout, LAYOUT);
    assert_eq!(barriers[0].new_layout, LAYOUT_COLOR_ATTACHMENT);
}

#[test]
fn a_dispatch_measured_off_a_bound_resource_is_sized_when_it_runs() {
    let mut module = Module::new();
    let target = module.declare_image_var("target", FORMAT, 1, LAYOUT);
    let elements = module.declare_buffer_var("elements", access(ACCESS_HOST_WRITE));

    module.begin_compute(&[]);
    module.bind_compute_pipeline(PipelineId(0));
    module.write(target);
    module.dispatch_invocations_per_pixel(target);
    let painted = module.end_compute();
    module.begin_compute(&[]);
    module.bind_compute_pipeline(PipelineId(0));
    module.write(elements);
    module.read(painted);
    module.dispatch_invocations_per_element(elements, 16);
    let end = module.end_compute();

    let compiled = compile(&module, end);
    match dispatch_sizes(&compiled).as_slice() {
        [DispatchSize::InvocationsPerPixel { image, .. }, DispatchSize::InvocationsPerElement { buffer, element_size, .. }] => {
            assert_eq!(root(&module, *image), target);
            assert_eq!(root(&module, *buffer), elements);
            assert_eq!(*element_size, 16);
        },
        sizes => panic!("expected both dispatches to keep their resource, got {sizes:?}"),
    }
}

#[test]
fn a_bound_resource_reads_as_bound() {
    let mut module = Module::new();
    let instances = module.declare_buffer_var("instances", access(ACCESS_HOST_WRITE));

    module.begin_compute(&[]);
    module.bind_compute_pipeline(PipelineId(0));
    module.write(instances);
    module.dispatch(1u32, 1u32, 1u32);
    let end = module.end_compute();

    let dump = compile(&module, end).dump();
    assert!(dump.contains("= const \"instances\""), "{dump}");
    assert!(dump.contains("buffer %") && dump.contains("(\"instances\")"), "{dump}");
    assert!(dump.contains(" bound"), "{dump}");
    assert!(!dump.contains("transient"), "{dump}");
}

#[test]
fn a_handle_reaches_the_slot_that_named_the_resource() {
    let mut module = Module::new();
    let instances = module.declare_buffer_var("instances", access(ACCESS_HOST_WRITE));

    module.begin_compute(&[]);
    module.bind_compute_pipeline(PipelineId(0));
    module.write(instances);
    module.dispatch(1u32, 1u32, 1u32);
    let end = module.end_compute();

    let mut compiled = compile(&module, end);
    assert!(matches!(compiled.variables()[0].value, Value::Nothing));

    compiled.set(instances, Value::Buffer(Buffer::default()));
    assert!(matches!(compiled.variables()[0].value, Value::Buffer(_)));
    assert_eq!(compiled.variables()[0].resource, Some(instances));
}

/// Vulkan's raw `LINE_STRIP`, `UINT32` index type, `BACK` and `FRONT` culling, `LINE` polygons.
const TOPOLOGY_LINE_STRIP: i32 = 2;
const INDEX_TYPE_UINT32: i32 = 1;
const CULL_MODE_BACK: u32 = 2;
const CULL_MODE_FRONT: u32 = 1;
const POLYGON_MODE_LINE: i32 = 1;

fn u32_constant(module: &Module, id: &ValueId) -> u32 {
    match module.instructions().get(id.0 as usize) {
        Some(IR::Constant(Constant::U32(v))) => *v,
        _ => panic!("{id:?} is not a u32 constant"),
    }
}

fn i32_constant(module: &Module, id: &ValueId) -> i32 {
    match module.instructions().get(id.0 as usize) {
        Some(IR::Constant(Constant::I32(v))) => *v,
        _ => panic!("{id:?} is not an i32 constant"),
    }
}

#[test]
fn an_imported_buffer_waits_at_the_access_it_was_imported_at() {
    let mut module = Module::new();
    let buffer = module.import_buffer(&Buffer::default(), access(ACCESS_ATTRIBUTE_READ));

    module.begin_compute(&[]);
    module.bind_compute_pipeline(PipelineId(0));
    module.write(buffer);
    module.dispatch(1u32, 1u32, 1u32);
    let end = module.end_compute();

    let compiled = compile(&module, end);
    assert_eq!(memory_barriers(&module, &compiled), vec![(access(ACCESS_ATTRIBUTE_READ), access(ACCESS_COMPUTE_WRITE))]);
}

#[test]
fn buffers_waiting_on_the_same_pair_share_one_barrier() {
    let mut module = Module::new();
    let first = module.import_buffer(&Buffer::default(), access(ACCESS_COMPUTE_READ));
    let second = module.import_buffer(&Buffer::default(), access(ACCESS_COMPUTE_READ));

    module.begin_compute(&[]);
    module.bind_compute_pipeline(PipelineId(0));
    module.write(first);
    module.write(second);
    module.dispatch(1u32, 1u32, 1u32);
    let end = module.end_compute();

    let compiled = compile(&module, end);
    assert_eq!(memory_barriers(&module, &compiled), vec![(access(ACCESS_COMPUTE_READ), access(ACCESS_COMPUTE_WRITE))]);
}

#[test]
fn a_later_pass_waiting_on_the_same_pair_gets_its_own_barrier() {
    let mut module = Module::new();
    let buffer = module.import_buffer(&Buffer::default(), access(ACCESS_COMPUTE_READ));

    module.begin_compute(&[]);
    module.bind_compute_pipeline(PipelineId(0));
    module.write(buffer);
    module.dispatch(1u32, 1u32, 1u32);
    let written = module.end_compute();
    module.begin_compute(&[]);
    module.bind_compute_pipeline(PipelineId(1));
    module.read(written);
    module.dispatch(1u32, 1u32, 1u32);
    let end = module.end_compute();

    let compiled = compile(&module, end);
    assert_eq!(
        memory_barriers(&module, &compiled),
        vec![
            (access(ACCESS_COMPUTE_READ), access(ACCESS_COMPUTE_WRITE)),
            (access(ACCESS_COMPUTE_WRITE), access(ACCESS_COMPUTE_READ)),
        ]
    );
}

#[test]
fn a_dispatch_and_a_draw_can_read_their_counts_from_variables() {
    let (mut module, attachment) = module_with_attachment();
    let invocations = module.declare_u32_var("invocations", 0);
    let vertices = module.declare_u32_var("vertices", 0);
    let one = module.constant_u32(1);

    module.begin_compute(&[]);
    module.bind_compute_pipeline(PipelineId(0));
    module.dispatch_invocations(invocations, one, one);
    let dispatched = module.end_compute();

    module.begin_rendering(&[(attachment, COLOR_RW)]);
    module.bind_graphics_pipeline(PipelineId(0));
    module.draw(vertices, one);
    let end = module.end_rendering();

    let compiled = compile_all(&module, &[dispatched, end]);
    assert_eq!(dispatch_sizes(&compiled), vec![DispatchSize::Invocations { x: invocations, y: one, z: one }]);

    let counts = compiled
        .instructions()
        .iter()
        .filter_map(|(_, ir)| match ir {
            IR::Draw { vertex_count, instance_count, .. } => Some((*vertex_count, *instance_count)),
            _ => None,
        })
        .collect::<Vec<_>>();
    assert_eq!(counts, vec![(vertices, one)]);
}

#[test]
fn a_region_opened_with_depth_infers_the_depth_format() {
    let (mut module, attachment) = module_with_attachment();
    let depth = module.transient_image(&depth_info());

    module.begin_rendering_depth(&[(attachment, COLOR_RW)], depth);
    module.bind_graphics_pipeline(PipelineId(0));
    module.set_depth(DepthState::less());
    module.draw(3u32, 1u32);
    let end = module.end_rendering();
    let compiled = compile(&module, end);

    let draws = draws(&compiled);
    assert_eq!(draws.len(), 1);
    assert_eq!(draws[0].1.rendering.color_formats, vec![FORMAT]);
    assert_eq!(draws[0].1.rendering.depth_format, Some(DEPTH_FORMAT));
    assert_eq!(draws[0].1.depth, DepthState::less());
}

#[test]
fn depth_state_without_a_depth_attachment_is_dropped() {
    let (mut module, attachment) = module_with_attachment();

    module.begin_rendering(&[(attachment, COLOR_RW)]);
    module.bind_graphics_pipeline(PipelineId(0));
    module.set_depth(DepthState::less());
    module.draw(3u32, 1u32);
    let end = module.end_rendering();
    let compiled = compile(&module, end);

    let draws = draws(&compiled);
    assert_eq!(draws.len(), 1);
    assert_eq!(draws[0].1.rendering.depth_format, None);
    assert_eq!(draws[0].1.depth, DepthState::off());
}

#[test]
fn the_depth_attachment_is_transitioned_for_the_region() {
    let (mut module, attachment) = module_with_attachment();
    let depth = module.transient_image(&depth_info());

    module.begin_rendering_depth(&[(attachment, COLOR_RW)], depth);
    module.bind_graphics_pipeline(PipelineId(0));
    module.set_depth(DepthState::less());
    module.draw(3u32, 1u32);
    let end = module.end_rendering();
    let compiled = compile(&module, end);

    let barrier = image_barriers(&module, &compiled)
        .into_iter()
        .find(|barrier| barrier.resource == root(&module, depth))
        .expect("the depth attachment should be transitioned");

    assert_eq!(barrier.dst, access(ACCESS_DEPTH_STENCIL_READ | ACCESS_DEPTH_STENCIL_WRITE));
    assert_eq!(barrier.old_layout, LAYOUT_UNDEFINED);
    assert_eq!(barrier.new_layout, LAYOUT_DEPTH_STENCIL_ATTACHMENT);
}

#[test]
fn rendering_into_a_transient_depth_target_infers_its_usage() {
    let (mut module, attachment) = module_with_attachment();
    let mut info = ImageInfo::new();
    info.extent = extent_3d();
    info.format = DEPTH_FORMAT;
    let depth = module.transient_image(&info);

    module.begin_rendering_depth(&[(attachment, COLOR_RW)], depth);
    module.bind_graphics_pipeline(PipelineId(0));
    module.draw(3u32, 1u32);
    let end = module.end_rendering();
    let compiled = compile(&module, end);

    assert!(
        image_usage(&compiled, depth) & IMAGE_USAGE_DEPTH_STENCIL_ATTACHMENT != 0,
        "the depth attachment should be created as one"
    );
}

#[test]
fn rebinding_the_same_vertex_buffer_does_not_repeat_the_barrier() {
    let (mut module, attachment) = module_with_attachment();
    let buffer = module.import_buffer(&Buffer::default(), access(ACCESS_HOST_WRITE));

    module.begin_rendering(&[(attachment, COLOR_RW)]);
    module.bind_graphics_pipeline(PipelineId(0));
    module.bind_vertex_buffer(0, buffer);
    module.draw(3u32, 1u32);
    module.bind_vertex_buffer(0, buffer);
    module.draw(3u32, 1u32);
    let end = module.end_rendering();

    let compiled = compile(&module, end);
    assert_eq!(memory_barriers(&module, &compiled).len(), 1);
}

#[test]
fn binding_an_index_buffer_makes_the_host_write_visible_to_index_input() {
    let (mut module, attachment) = module_with_attachment();
    let indices = module.import_buffer(&Buffer::default(), access(ACCESS_HOST_WRITE));

    module.begin_rendering(&[(attachment, COLOR_RW)]);
    module.bind_graphics_pipeline(PipelineId(0));
    module.bind_index_buffer(indices, INDEX_TYPE_UINT32);
    module.draw_indexed(3u32, 1u32);
    let end = module.end_rendering();

    let compiled = compile(&module, end);
    assert_eq!(memory_barriers(&module, &compiled), vec![(access(ACCESS_HOST_WRITE), access(ACCESS_INDEX_READ))]);
    assert!(
        position(&compiled, |ir| matches!(ir, IR::MemoryBarrier { .. }))
            < position(&compiled, |ir| matches!(ir, IR::BeginRendering { .. }))
    );
}

#[test]
fn vertex_and_index_buffers_share_the_barrier_their_stages_need() {
    let (mut module, attachment) = module_with_attachment();
    let vertices = module.import_buffer(&Buffer::default(), access(ACCESS_HOST_WRITE));
    let indices = module.import_buffer(&Buffer::default(), access(ACCESS_HOST_WRITE));

    module.begin_rendering(&[(attachment, COLOR_RW)]);
    module.bind_graphics_pipeline(PipelineId(0));
    module.bind_vertex_buffer(0, vertices);
    module.bind_index_buffer(indices, INDEX_TYPE_UINT32);
    module.draw_indexed(3u32, 1u32);
    let end = module.end_rendering();

    let compiled = compile(&module, end);
    assert_eq!(
        memory_barriers(&module, &compiled),
        vec![(access(ACCESS_HOST_WRITE), access(ACCESS_ATTRIBUTE_READ | ACCESS_INDEX_READ))],
        "{}",
        compiled.dump()
    );
}

#[test]
fn rebinding_the_same_index_buffer_does_not_repeat_the_barrier() {
    let (mut module, attachment) = module_with_attachment();
    let indices = module.import_buffer(&Buffer::default(), access(ACCESS_HOST_WRITE));

    module.begin_rendering(&[(attachment, COLOR_RW)]);
    module.bind_graphics_pipeline(PipelineId(0));
    module.bind_index_buffer(indices, INDEX_TYPE_UINT32);
    module.draw_indexed(3u32, 1u32);
    module.bind_index_buffer(indices, INDEX_TYPE_UINT32);
    module.draw_indexed(3u32, 1u32);
    let end = module.end_rendering();

    assert_eq!(memory_barriers(&module, &compile(&module, end)).len(), 1);
}

#[test]
fn an_indexed_draw_inherits_the_pipeline_and_state_in_force() {
    let (mut module, attachment) = module_with_attachment();
    let pipeline = PipelineId(0);
    let indices = module.import_buffer(&Buffer::default(), access(ACCESS_HOST_WRITE));

    module.begin_rendering(&[(attachment, COLOR_RW)]);
    module.bind_graphics_pipeline(pipeline);
    module.set_primitive_topology(TOPOLOGY_LINE_STRIP);
    module.broadcast_color_blend(BlendPreset::PremultipliedAlphaBlend.state());
    module.bind_index_buffer(indices, INDEX_TYPE_UINT32);
    module.draw_indexed(6u32, 1u32);
    let end = module.end_rendering();

    let draws = draws(&compile(&module, end));
    assert_eq!(draws.len(), 1);
    assert_eq!(draws[0].0, pipeline);
    assert_eq!(draws[0].1.rendering.color_formats, vec![FORMAT]);
    assert_eq!(draws[0].1.topology, TOPOLOGY_LINE_STRIP);
    assert!(draws[0].1.blend.iter().all(|blend| blend.blend_enable));
}

#[test]
fn an_indexed_draw_lowers_its_range_with_a_signed_vertex_offset() {
    let (mut module, attachment) = module_with_attachment();

    module.begin_rendering(&[(attachment, COLOR_RW)]);
    module.bind_graphics_pipeline(PipelineId(0));
    module.draw_indexed_range(9u32, 2u32, 3u32, -4, 5u32);
    let end = module.end_rendering();

    let compiled = compile(&module, end);
    let (_, ir) = compiled
        .instructions()
        .iter()
        .find(|(_, ir)| matches!(ir, IR::DrawIndexed { .. }))
        .expect("the indexed draw should survive compilation");

    let IR::DrawIndexed { index_count, instance_count, first_index, vertex_offset, first_instance, .. } = ir else {
        unreachable!()
    };

    assert_eq!(u32_constant(&module, index_count), 9);
    assert_eq!(u32_constant(&module, instance_count), 2);
    assert_eq!(u32_constant(&module, first_index), 3);
    assert_eq!(i32_constant(&module, vertex_offset), -4);
    assert_eq!(u32_constant(&module, first_instance), 5);
}

#[test]
fn a_draw_inherits_the_regions_formats_and_the_default_state() {
    let (mut module, attachment) = module_with_attachment();
    let pipeline = PipelineId(0);

    module.begin_rendering(&[(attachment, COLOR_RW)]);
    module.bind_graphics_pipeline(pipeline);
    module.draw(3u32, 1u32);
    let end = module.end_rendering();

    let draws = draws(&compile(&module, end));
    assert_eq!(draws.len(), 1);
    assert_eq!(draws[0].0, pipeline);
    assert_eq!(draws[0].1.rendering.color_formats, vec![FORMAT]);
    assert_eq!(draws[0].1.rasterization, RasterizationState::default_state());
    assert_eq!(draws[0].1.topology, TOPOLOGY_TRIANGLE_LIST);
}

#[test]
fn state_set_after_bind_reaches_the_draw() {
    let (mut module, attachment) = module_with_attachment();

    module.begin_rendering(&[(attachment, COLOR_RW)]);
    module.bind_graphics_pipeline(PipelineId(0));
    module.set_rasterization(RasterizationState {
        cull_mode: CULL_MODE_BACK,
        polygon_mode: POLYGON_MODE_LINE,
        ..RasterizationState::default_state()
    });
    module.draw(3u32, 1u32);
    let end = module.end_rendering();

    let draws = draws(&compile(&module, end));
    assert_eq!(draws.len(), 1);
    assert_eq!(draws[0].1.rasterization.cull_mode, CULL_MODE_BACK);
    assert_eq!(draws[0].1.rasterization.polygon_mode, POLYGON_MODE_LINE);
}

#[test]
fn a_state_change_between_draws_splits_them_into_two_permutations() {
    let (mut module, attachment) = module_with_attachment();
    let pipeline = PipelineId(0);

    module.begin_rendering(&[(attachment, COLOR_RW)]);
    module.bind_graphics_pipeline(pipeline);
    module.draw(3u32, 1u32);
    module.set_rasterization(RasterizationState { cull_mode: CULL_MODE_FRONT, ..RasterizationState::default_state() });
    module.draw(3u32, 1u32);
    let end = module.end_rendering();

    let draws = draws(&compile(&module, end));
    assert_eq!(draws.len(), 2);
    assert_eq!(draws[0].1.rasterization.cull_mode, 0);
    assert_eq!(draws[1].1.rasterization.cull_mode, CULL_MODE_FRONT);
    assert_eq!(draws[0].0, draws[1].0);
    assert_ne!(draws[0].1, draws[1].1);
}

#[test]
fn draws_that_agree_on_state_share_one_permutation() {
    let (mut module, attachment) = module_with_attachment();

    module.begin_rendering(&[(attachment, COLOR_RW)]);
    module.bind_graphics_pipeline(PipelineId(0));
    module.set_primitive_topology(TOPOLOGY_LINE_STRIP);
    module.draw(3u32, 1u32);
    module.draw(6u32, 1u32);
    let end = module.end_rendering();

    let draws = draws(&compile(&module, end));
    assert_eq!(draws.len(), 2);
    assert_eq!(draws[0], draws[1]);
    assert_eq!(draws[0].1.topology, TOPOLOGY_LINE_STRIP);
}

#[test]
fn rebinding_a_declaration_keeps_the_state_accumulated_so_far() {
    let (mut module, attachment) = module_with_attachment();

    module.begin_rendering(&[(attachment, COLOR_RW)]);
    module.set_rasterization(RasterizationState { cull_mode: CULL_MODE_BACK, ..RasterizationState::default_state() });
    module.bind_graphics_pipeline(PipelineId(1));
    module.draw(3u32, 1u32);
    let end = module.end_rendering();

    let draws = draws(&compile(&module, end));
    assert_eq!(draws[0].0, PipelineId(1));
    assert_eq!(draws[0].1.rasterization.cull_mode, CULL_MODE_BACK);
}

#[test]
fn a_draw_with_no_bound_pipeline_infers_invalid() {
    let (mut module, attachment) = module_with_attachment();

    module.begin_rendering(&[(attachment, COLOR_RW)]);
    module.draw(3u32, 1u32);
    let end = module.end_rendering();

    let draws = draws(&compile(&module, end));
    assert_eq!(draws[0].0, PipelineId(INVALID_ID));
}

/// An image that declares no usage at all, so what it ends up created with is entirely what
/// the graph inferred.
fn untyped_info() -> ImageInfo {
    let mut info = ImageInfo::new();
    info.extent = extent_3d();
    info.format = FORMAT;
    info
}

fn floats(values: &[f32]) -> Vec<u8> {
    values.iter().flat_map(|v| v.to_ne_bytes()).collect()
}

fn invocations(module: &Module, program: &Program) -> [u32; 3] {
    match dispatch_sizes(program).as_slice() {
        [DispatchSize::Invocations { x, y, z }] => [u32_constant(module, x), u32_constant(module, y), u32_constant(module, z)],
        sizes => panic!("expected one dispatch sized in invocations, got {sizes:?}"),
    }
}

#[test]
fn a_second_region_over_the_same_attachment_keeps_its_own_state() {
    let (mut module, attachment) = module_with_attachment();
    let pipeline = PipelineId(0);

    module.begin_rendering(&[(attachment, COLOR_RW)]);
    module.bind_graphics_pipeline(pipeline);
    module.set_rasterization(RasterizationState { polygon_mode: POLYGON_MODE_LINE, ..RasterizationState::default_state() });
    module.draw(3u32, 1u32);
    let attachment = module.end_rendering();
    module.begin_rendering(&[(attachment, COLOR_RW)]);
    module.bind_graphics_pipeline(pipeline);
    module.draw(3u32, 1u32);
    let end = module.end_rendering();

    let draws = draws(&compile(&module, end));
    assert_eq!(draws.len(), 2);
    assert_eq!(draws[0].1.rasterization.polygon_mode, POLYGON_MODE_LINE);
    assert_eq!(draws[1].1.rasterization.polygon_mode, POLYGON_MODE_FILL);
    assert_eq!(draws[1].1.rendering.color_formats, vec![FORMAT]);
}

#[test]
fn a_dynamic_viewport_travels_with_the_draw_instead_of_the_pipeline() {
    let (mut module, attachment) = module_with_attachment();
    let half = Rect2D::Relative { x: 0f32.to_bits(), y: 0f32.to_bits(), width: 0.5f32.to_bits(), height: 0.5f32.to_bits() };

    module.begin_rendering(&[(attachment, COLOR_RW)]);
    module.bind_graphics_pipeline(PipelineId(0));
    module.set_viewport(0, Viewport::from_rect(half));
    module.draw(3u32, 1u32);
    module.set_viewport(0, Viewport::framebuffer());
    module.draw(3u32, 1u32);
    let end = module.end_rendering();

    let compiled = compile(&module, end);
    let dynamic = compiled
        .instructions()
        .iter()
        .filter_map(|(_, ir)| match ir {
            IR::Draw { dynamic, .. } => Some(dynamic.clone()),
            _ => None,
        })
        .collect::<Vec<_>>();

    // both draws share a permutation, only the recorded viewport differs
    let draws = draws(&compiled);
    assert_eq!(draws[0].1, draws[1].1);
    assert!(draws[0].1.viewports.is_empty());
    assert_eq!(dynamic[0].viewports, vec![Viewport::from_rect(half)]);
    assert_eq!(dynamic[1].viewports, vec![Viewport::framebuffer()]);
}

#[test]
fn a_static_viewport_follows_the_render_area_a_region_was_opened_with() {
    let (mut module, attachment) = module_with_attachment();

    module.begin_rendering_area(&[(attachment, COLOR_RW)], Extent2D { width: WIDTH / 2, height: HEIGHT / 2 });
    module.bind_graphics_pipeline(PipelineId(0));
    module.set_dynamic_state(DynamicStateFlags(0));
    module.draw(3u32, 1u32);
    let end = module.end_rendering();

    let draws = draws(&compile(&module, end));
    // the framebuffer viewport resolves against the area the pipeline is keyed by
    assert_eq!(draws[0].1.viewports, vec![Viewport::framebuffer()]);
    assert_eq!(draws[0].1.area.width, WIDTH / 2);
    assert_eq!(draws[0].1.area.height, HEIGHT / 2);
}

#[test]
fn push_constants_reach_the_draws_that_follow_them() {
    let (mut module, attachment) = module_with_attachment();

    module.begin_rendering(&[(attachment, COLOR_RW)]);
    module.bind_graphics_pipeline(PipelineId(0));
    module.push_constant_bytes(0, &floats(&[1.0, 2.0]));
    module.draw(3u32, 1u32);
    module.push_constant_bytes(4, &floats(&[3.0]));
    module.draw(3u32, 1u32);
    let end = module.end_rendering();

    let compiled = compile(&module, end);
    let pushed = compiled
        .instructions()
        .iter()
        .filter_map(|(_, ir)| match ir {
            IR::Draw { dynamic, .. } => Some(dynamic.push_constants.clone()),
            _ => None,
        })
        .collect::<Vec<_>>();

    // the second push only touches the tail, so the first four bytes carry over
    assert_eq!(pushed[0].offset, 0);
    assert_eq!(pushed[0].data, floats(&[1.0, 2.0]));
    assert_eq!(pushed[1].data, floats(&[1.0, 3.0]));

    // and none of it splits the pipeline permutation
    let draws = draws(&compiled);
    assert_eq!(draws[0], draws[1]);
}

#[test]
fn a_draw_recorded_before_a_push_does_not_see_it() {
    let (mut module, attachment) = module_with_attachment();

    module.begin_rendering(&[(attachment, COLOR_RW)]);
    module.bind_graphics_pipeline(PipelineId(0));
    module.draw(3u32, 1u32);
    module.push_constant_bytes(0, &7u32.to_ne_bytes());
    module.draw(3u32, 1u32);
    let end = module.end_rendering();

    let pushed = compile(&module, end)
        .instructions()
        .iter()
        .filter_map(|(_, ir)| match ir {
            IR::Draw { dynamic, .. } => Some(dynamic.push_constants.clone()),
            _ => None,
        })
        .collect::<Vec<_>>();

    assert!(pushed[0].is_empty());
    assert_eq!(pushed[1].data, 7u32.to_ne_bytes());
}

#[test]
fn a_push_before_the_pipeline_bind_still_reaches_the_draw() {
    let (mut module, attachment) = module_with_attachment();

    module.begin_rendering(&[(attachment, COLOR_RW)]);
    module.push_constant_bytes(0, &7u32.to_ne_bytes());
    module.bind_graphics_pipeline(PipelineId(0));
    module.draw(3u32, 1u32);
    let end = module.end_rendering();

    let compiled = compile(&module, end);
    let (_, IR::Draw { dynamic, .. }) =
        compiled.instructions().iter().find(|(_, ir)| matches!(ir, IR::Draw { .. })).expect("draw should be present")
    else {
        unreachable!()
    };

    assert_eq!(dynamic.push_constants.data, 7u32.to_ne_bytes());
    assert_eq!(draws(&compiled)[0].0, PipelineId(0));
}

#[test]
fn a_dispatch_picks_up_the_compute_pipeline_and_the_pushes_in_force() {
    let (mut module, attachment) = module_with_attachment();

    module.begin_compute(&[]);
    module.bind_compute_pipeline(PipelineId(1));
    module.write(attachment);
    module.push_constant_bytes(0, &7u32.to_ne_bytes());
    module.dispatch(8u32, 4u32, 1u32);
    let end = module.end_compute();

    let compiled = compile(&module, end);
    let (_, IR::Dispatch { pipeline, push_constants, size: DispatchSize::Groups { x, y, z }, .. }) = compiled
        .instructions()
        .iter()
        .find(|(_, ir)| matches!(ir, IR::Dispatch { .. }))
        .expect("dispatch should be present")
    else {
        unreachable!()
    };

    assert_eq!(*pipeline, PipelineId(1));
    assert_eq!(push_constants.data, 7u32.to_ne_bytes());
    assert_eq!([u32_constant(&module, x), u32_constant(&module, y), u32_constant(&module, z)], [8, 4, 1]);
}

#[test]
fn a_dispatch_sized_in_invocations_keeps_the_count_it_was_given() {
    let (mut module, attachment) = module_with_attachment();

    module.begin_compute(&[]);
    module.bind_compute_pipeline(PipelineId(0));
    module.write(attachment);
    module.dispatch_invocations(1920u32, 1080u32, 1u32);
    let end = module.end_compute();

    let compiled = compile(&module, end);
    assert_eq!(invocations(&module, &compiled), [1920, 1080, 1]);
}

#[test]
fn a_dispatch_per_pixel_covers_the_image_it_was_sized_from() {
    let (mut module, attachment) = module_with_attachment();

    module.begin_compute(&[]);
    module.bind_compute_pipeline(PipelineId(0));
    module.write(attachment);
    module.dispatch_invocations_per_pixel(attachment);
    let end = module.end_compute();

    let compiled = compile(&module, end);
    assert_eq!(invocations(&module, &compiled), [WIDTH, HEIGHT, 1]);
}

#[test]
fn a_dispatch_per_element_sizes_itself_on_the_x_axis_alone() {
    let mut module = Module::new();
    let buffer = module.import_buffer(&Buffer::new(0, 800, 0, false), access(ACCESS_HOST_WRITE));

    module.begin_compute(&[]);
    module.bind_compute_pipeline(PipelineId(0));
    module.write(buffer);
    module.dispatch_invocations_per_element(buffer, 20);
    let end = module.end_compute();

    let compiled = compile(&module, end);
    assert_eq!(invocations(&module, &compiled), [40, 1, 1]);
}

#[test]
fn an_indirect_dispatch_waits_for_the_buffer_of_counts() {
    let mut module = Module::new();
    let image = module.transient_image(&untyped_info());
    let commands = module.import_buffer(&Buffer::new(0, 12, 0, false), access(ACCESS_HOST_WRITE));

    module.begin_compute(&[]);
    module.bind_compute_pipeline(PipelineId(0));
    module.write(image);
    module.dispatch_indirect(commands);
    let end = module.end_compute();

    let compiled = compile(&module, end);
    assert_eq!(memory_barriers(&module, &compiled), vec![(access(ACCESS_HOST_WRITE), access(ACCESS_INDIRECT_READ))]);
    assert_eq!(dispatch_sizes(&compiled), vec![DispatchSize::Indirect { buffer: commands, offset: 0 }]);
}

#[test]
fn indirect_dispatches_out_of_one_buffer_wait_on_it_once() {
    let mut module = Module::new();
    let image = module.transient_image(&untyped_info());
    let commands = module.import_buffer(&Buffer::new(0, 24, 0, false), access(ACCESS_HOST_WRITE));

    module.begin_compute(&[]);
    module.bind_compute_pipeline(PipelineId(0));
    module.write(image);
    module.dispatch_indirect(commands);
    module.dispatch_indirect_at(commands, 12);
    let end = module.end_compute();

    let compiled = compile(&module, end);
    assert_eq!(
        dispatch_sizes(&compiled),
        vec![
            DispatchSize::Indirect { buffer: commands, offset: 0 },
            DispatchSize::Indirect { buffer: commands, offset: 12 },
        ]
    );
    assert_eq!(memory_barriers(&module, &compiled), vec![(access(ACCESS_HOST_WRITE), access(ACCESS_INDIRECT_READ))]);
}

#[test]
fn a_dispatch_that_writes_an_image_puts_it_in_general_with_storage_usage() {
    let (mut module, swapchain) = module_with_attachment();
    let target = module.transient_image(&untyped_info());

    module.begin_compute(&[]);
    module.bind_compute_pipeline(PipelineId(0));
    module.write(target);
    module.dispatch(8u32, 8u32, 1u32);
    let computed = module.end_compute();
    // the region's value stands in for what it wrote, so the blit reads the dispatch
    let swapchain = module.blit(computed, swapchain);
    let end = module.present(swapchain);

    let compiled = compile(&module, end);
    let written = image_barriers(&module, &compiled)
        .into_iter()
        .find(|barrier| barrier.resource == target)
        .expect("the written image should have been transitioned");

    assert_eq!(written.dst, access(ACCESS_COMPUTE_WRITE));
    assert_eq!(written.old_layout, LAYOUT_UNDEFINED);
    assert_eq!(written.new_layout, LAYOUT_GENERAL);
    assert_eq!(image_usage(&compiled, target), IMAGE_USAGE_STORAGE | IMAGE_USAGE_TRANSFER_SRC);
}

#[test]
fn a_dispatch_that_reads_what_an_earlier_one_wrote_waits_for_it() {
    let mut module = Module::new();
    let image = module.transient_image(&untyped_info());

    module.begin_compute(&[]);
    module.bind_compute_pipeline(PipelineId(0));
    module.write(image);
    module.dispatch(1u32, 1u32, 1u32);
    let written = module.end_compute();
    module.begin_compute(&[]);
    module.bind_compute_pipeline(PipelineId(1));
    module.read(written);
    module.dispatch(1u32, 1u32, 1u32);
    let end = module.end_compute();

    let barriers = image_barriers(&module, &compile(&module, end));
    assert_eq!(barriers.len(), 2);
    assert_eq!(barriers[1].src, access(ACCESS_COMPUTE_WRITE));
    assert_eq!(barriers[1].dst, access(ACCESS_COMPUTE_READ));
    assert_eq!(barriers[1].old_layout, LAYOUT_GENERAL);
    assert_eq!(barriers[1].new_layout, LAYOUT_GENERAL);
}

#[test]
fn a_resource_declared_twice_carries_both_accesses() {
    let mut module = Module::new();
    let image = module.transient_image(&untyped_info());

    module.begin_compute(&[]);
    module.bind_compute_pipeline(PipelineId(0));
    module.read(image);
    module.write(image);
    module.dispatch(1u32, 1u32, 1u32);
    let end = module.end_compute();

    let barriers = image_barriers(&module, &compile(&module, end));
    assert_eq!(barriers.len(), 1);
    assert_eq!(barriers[0].dst, access(ACCESS_COMPUTE_READ | ACCESS_COMPUTE_WRITE));
}

/// A sampler handle that stands for one, since a combined image sampler is only well formed
/// with a real one behind it.
fn a_sampler() -> u64 {
    1
}

const WHITE: ClearValue = ClearValue { r: 0x3f80_0000, g: 0x3f80_0000, b: 0x3f80_0000, a: 0x3f80_0000 };

/// Pipeline bindings written out by tests rather than reflected from shaders.
struct Declared {
    bindings: Vec<DescriptorBinding>,
    bindless: Option<u32>,
}

impl Declared {
    fn new(bindings: &[(u32, u32, i32)]) -> Self {
        Self::in_stages(bindings, STAGE_FRAGMENT)
    }

    fn in_stages(bindings: &[(u32, u32, i32)], stages: u32) -> Self {
        Self::with_access(bindings, stages, Access::sampled_by(stages))
    }

    fn with_access(bindings: &[(u32, u32, i32)], stages: u32, access: Access) -> Self {
        Declared {
            bindings: bindings
                .iter()
                .map(|(set, binding, descriptor_type)| DescriptorBinding {
                    set: *set,
                    binding: *binding,
                    descriptor_type: *descriptor_type,
                    count: 1,
                    variable_count: false,
                    stages,
                    access,
                })
                .collect(),
            bindless: None,
        }
    }
}

impl PipelineBindings for Declared {
    fn bindings(&self, _: PipelineId) -> Option<Vec<DescriptorBinding>> {
        Some(self.bindings.clone())
    }

    fn bindless_set(&self, _: PipelineId) -> Option<u32> {
        self.bindless
    }
}

fn compile_with(module: &Module, bindings: &Declared, end: ValueId) -> Program {
    assert!(module.is_compilable(&[end]));
    module.compile(bindings, end).unwrap()
}

/// The access the access constant at `id` holds.
fn resolve_access(module: &Module, id: ValueId) -> Access {
    match module.get(id) {
        IR::Constant(Constant::Access(a)) => *a,
        ir => panic!("{id:?} is not an access constant: {ir:?}"),
    }
}

fn descriptor_writes(program: &Program) -> Vec<(u32, u32, Descriptor)> {
    program
        .instructions()
        .iter()
        .filter_map(|(_, ir)| match ir {
            IR::WriteDescriptor { set, binding, descriptor, .. } => Some((*set, *binding, *descriptor)),
            _ => None,
        })
        .collect()
}

#[test]
fn recorded_accesses_are_lowered_to_constants() {
    let mut module = Module::new();
    let buffer = module.import_buffer(&Buffer::default(), access(ACCESS_HOST_WRITE));
    let image = module.transient_image(&untyped_info());

    module.begin_compute(&[]);
    module.bind_compute_pipeline(PipelineId(0));
    module.read(image);
    module.bind_image(0, 0, image);
    module.dispatch(1u32, 1u32, 1u32);
    let _end = module.end_compute();

    let IR::ConstructBuffer { initial_access, .. } = module.get(buffer) else {
        panic!("the imported buffer should be constructed directly");
    };
    assert_eq!(resolve_access(&module, *initial_access), access(ACCESS_HOST_WRITE));

    let declared = module.instructions().iter().find_map(|ir| match ir {
        IR::BeginCompute { attachments, .. } => {
            attachments.iter().find_map(|(resource, access)| (*resource == image).then_some(*access))
        },
        _ => None,
    });
    assert_eq!(declared.map(|id| resolve_access(&module, id)), Some(access(ACCESS_COMPUTE_READ)));

    let descriptor = module.instructions().iter().find_map(|ir| match ir {
        IR::WriteDescriptor { access, .. } => Some(*access),
        _ => None,
    });
    assert_eq!(descriptor.map(|id| resolve_access(&module, id)), Some(access(0)));
}

#[test]
fn a_buffer_a_dispatch_wrote_is_made_visible_to_the_draw_that_reads_it() {
    let (mut module, attachment) = module_with_attachment();
    let buffer = module.import_buffer(&Buffer::default(), access(ACCESS_HOST_WRITE));

    module.begin_compute(&[]);
    module.bind_compute_pipeline(PipelineId(1));
    module.write(buffer);
    module.dispatch(1u32, 1u32, 1u32);
    let computed = module.end_compute();
    module.begin_rendering(&[(attachment, COLOR_RW)]);
    module.bind_graphics_pipeline(PipelineId(0));
    module.bind_vertex_buffer(0, buffer);
    module.draw(3u32, 1u32);
    let rendered = module.end_rendering();

    let compiled = compile_all(&module, &[computed, rendered]);
    assert_eq!(
        memory_barriers(&module, &compiled),
        vec![
            (access(ACCESS_HOST_WRITE), access(ACCESS_COMPUTE_WRITE)),
            (access(ACCESS_COMPUTE_WRITE), access(ACCESS_ATTRIBUTE_READ))
        ]
    );
}

#[test]
fn a_dispatch_the_draw_binds_the_result_of_stays_outside_the_region() {
    let (mut module, attachment) = module_with_attachment();
    let buffer = module.import_buffer(&Buffer::default(), access(ACCESS_HOST_WRITE));

    module.begin_compute(&[]);
    module.bind_compute_pipeline(PipelineId(1));
    module.write(buffer);
    module.dispatch(1u32, 1u32, 1u32);
    let computed = module.end_compute();
    module.begin_rendering(&[(attachment, COLOR_RW)]);
    module.bind_graphics_pipeline(PipelineId(0));
    module.bind_vertex_buffer(0, computed);
    module.draw(3u32, 1u32);
    let rendered = module.end_rendering();

    let compiled = compile(&module, rendered);
    let end_compute = position(&compiled, |ir| matches!(ir, IR::EndCompute { .. }));
    let begin_rendering = position(&compiled, |ir| matches!(ir, IR::BeginRendering { .. }));
    assert!(
        end_compute < begin_rendering,
        "the compute region closed at {end_compute} but the rendering region opened at {begin_rendering}"
    );

    // and the barrier that hands the buffer over is hoisted out with it
    assert_eq!(
        memory_barriers(&module, &compiled),
        vec![
            (access(ACCESS_HOST_WRITE), access(ACCESS_COMPUTE_WRITE)),
            (access(ACCESS_COMPUTE_WRITE), access(ACCESS_ATTRIBUTE_READ))
        ]
    );
}

#[test]
fn a_copy_waits_for_the_host_write_and_puts_the_image_in_the_transfer_layout() {
    let mut module = Module::new();
    let staging = module.import_buffer(&Buffer::default(), access(ACCESS_HOST_WRITE));
    let texture = module.transient_image(&untyped_info());
    let end = module.copy_buffer_to_image(staging, texture);

    let compiled = compile(&module, end);
    assert_eq!(memory_barriers(&module, &compiled), vec![(access(ACCESS_HOST_WRITE), access(ACCESS_COPY_READ))]);

    let barriers = image_barriers(&module, &compiled);
    assert_eq!(barriers.len(), 1);
    assert_eq!(barriers[0].resource, texture);
    assert_eq!(barriers[0].dst, access(ACCESS_COPY_WRITE));
    assert_eq!(barriers[0].old_layout, LAYOUT_UNDEFINED);
    assert_eq!(barriers[0].new_layout, LAYOUT_TRANSFER_DST);
}

#[test]
fn a_sampled_image_reaches_the_shader_read_layout_before_the_region_opens() {
    let (mut module, attachment) = module_with_attachment();
    let texture = module.transient_image(&untyped_info());

    module.begin_rendering(&[(attachment, COLOR_RW)]);
    module.bind_graphics_pipeline(PipelineId(0));
    module.access(texture, access(ACCESS_FRAGMENT_SAMPLED));
    module.draw(3u32, 1u32);
    let end = module.end_rendering();

    let compiled = compile(&module, end);
    let sampled = image_barriers(&module, &compiled)
        .into_iter()
        .find(|barrier| barrier.resource == texture)
        .expect("the sampled image should have been transitioned");
    assert_eq!(sampled.dst, access(ACCESS_FRAGMENT_SAMPLED));
    assert_eq!(sampled.new_layout, LAYOUT_SHADER_READ_ONLY);

    let last_barrier = compiled
        .instructions()
        .iter()
        .rposition(|(_, ir)| matches!(ir, IR::ImageBarrier { .. }))
        .expect("barriers should be present");
    let begin = position(&compiled, |ir| matches!(ir, IR::BeginRendering { .. }));
    assert!(last_barrier < begin);
}

#[test]
fn a_rendering_descriptor_is_written_by_an_instruction_of_its_own() {
    let (mut module, attachment) = module_with_attachment();
    let first = module.transient_image(&untyped_info());
    let second = module.transient_image(&untyped_info());

    module.begin_rendering(&[(attachment, COLOR_RW)]);
    module.bind_graphics_pipeline(PipelineId(0));
    module.bind_image(2, 4, first);
    module.bind_texture(2, 4, second, a_sampler());
    module.draw(3u32, 1u32);
    let end = module.end_rendering();

    let bindings = Declared::new(&[(2, 4, DESCRIPTOR_TYPE_COMBINED_IMAGE_SAMPLER)]);
    let compiled = compile_with(&module, &bindings, end);
    // both writes survive: what the draw sees is the last one, but the first one remains in
    // the recorded command stream
    assert_eq!(
        descriptor_writes(&compiled),
        [
            (2, 4, Descriptor::SampledImage { image: first }),
            (2, 4, Descriptor::CombinedImageSampler { image: second, sampler: a_sampler() }),
        ]
    );

    let sampled = image_barriers(&module, &compiled)
        .into_iter()
        .find(|barrier| barrier.resource == second)
        .expect("the bound image should be transitioned");
    assert_eq!(sampled.dst, access(ACCESS_FRAGMENT_SAMPLED));
}

#[test]
fn a_compute_descriptor_is_written_by_an_instruction_of_its_own() {
    let mut module = Module::new();
    let texture = module.transient_image(&untyped_info());
    module.begin_compute(&[]);
    module.bind_compute_pipeline(PipelineId(0));
    module.bind_image(1, 3, texture);
    module.dispatch(1u32, 1u32, 1u32);
    let end = module.end_compute();

    let bindings = Declared::in_stages(&[(1, 3, DESCRIPTOR_TYPE_SAMPLED_IMAGE)], STAGE_COMPUTE);
    let compiled = compile_with(&module, &bindings, end);
    assert_eq!(descriptor_writes(&compiled), [(1, 3, Descriptor::SampledImage { image: texture })]);

    let sampled = image_barriers(&module, &compiled)
        .into_iter()
        .find(|barrier| barrier.resource == texture)
        .expect("the bound image should be transitioned");
    assert_eq!(sampled.dst, access(ACCESS_COMPUTE_SAMPLED));
}

#[test]
fn a_written_descriptor_is_transitioned_before_its_region_opens() {
    let (mut module, attachment) = module_with_attachment();
    let texture = module.transient_image(&untyped_info());
    module.begin_rendering(&[(attachment, COLOR_RW)]);
    module.bind_graphics_pipeline(PipelineId(0));
    module.bind_texture(0, 0, texture, a_sampler());
    module.draw(3u32, 1u32);
    let end = module.end_rendering();

    let bindings = Declared::new(&[(0, 0, DESCRIPTOR_TYPE_COMBINED_IMAGE_SAMPLER)]);
    let compiled = compile_with(&module, &bindings, end);
    let instructions = compiled.instructions();
    let barrier = instructions
        .iter()
        .position(|(_, ir)| matches!(ir, IR::ImageBarrier { value, .. } if root(&module, *value) == texture))
        .expect("the written image should be transitioned");
    let begin = position(&compiled, |ir| matches!(ir, IR::BeginRendering { .. }));

    assert!(barrier < begin);
}

#[test]
fn sampling_the_same_image_twice_in_a_region_does_not_repeat_the_barrier() {
    let (mut module, attachment) = module_with_attachment();
    let texture = module.transient_image(&untyped_info());

    module.begin_rendering(&[(attachment, COLOR_RW)]);
    module.bind_graphics_pipeline(PipelineId(0));
    module.access(texture, access(ACCESS_FRAGMENT_SAMPLED));
    module.draw(3u32, 1u32);
    module.access(texture, access(ACCESS_FRAGMENT_SAMPLED));
    module.draw(3u32, 1u32);
    let end = module.end_rendering();

    let barriers = image_barriers(&module, &compile(&module, end));
    assert_eq!(barriers.iter().filter(|b| b.resource == texture).count(), 1);
}

#[test]
fn an_image_uploaded_and_then_sampled_moves_through_both_layouts_in_order() {
    let (mut module, attachment) = module_with_attachment();
    let staging = module.import_buffer(&Buffer::default(), access(ACCESS_HOST_WRITE));
    let texture = module.transient_image(&untyped_info());
    let uploaded = module.copy_buffer_to_image(staging, texture);

    module.begin_rendering(&[(attachment, COLOR_RW)]);
    module.bind_graphics_pipeline(PipelineId(0));
    module.access(uploaded, access(ACCESS_FRAGMENT_SAMPLED));
    module.draw(3u32, 1u32);
    let end = module.end_rendering();

    let compiled = compile(&module, end);
    let layouts = image_barriers(&module, &compiled)
        .iter()
        .filter(|barrier| barrier.resource == texture)
        .map(|barrier| (barrier.old_layout, barrier.new_layout))
        .collect::<Vec<_>>();

    assert_eq!(layouts, vec![(LAYOUT_UNDEFINED, LAYOUT_TRANSFER_DST), (LAYOUT_TRANSFER_DST, LAYOUT_SHADER_READ_ONLY)]);
}

#[test]
fn an_uploaded_and_sampled_image_is_created_with_both_usages() {
    let (mut module, attachment) = module_with_attachment();
    let staging = module.import_buffer(&Buffer::default(), access(ACCESS_HOST_WRITE));
    let texture = module.transient_image(&untyped_info());
    let uploaded = module.copy_buffer_to_image(staging, texture);

    module.begin_rendering(&[(attachment, COLOR_RW)]);
    module.bind_graphics_pipeline(PipelineId(0));
    module.access(uploaded, access(ACCESS_FRAGMENT_SAMPLED));
    module.draw(3u32, 1u32);
    let end = module.end_rendering();

    assert_eq!(image_usage(&compile(&module, end), texture), IMAGE_USAGE_TRANSFER_DST | IMAGE_USAGE_SAMPLED);
}

#[test]
fn a_copy_region_overrides_the_extent_the_whole_image_would_have_used() {
    let mut module = Module::new();
    let staging = module.import_buffer(&Buffer::default(), access(ACCESS_HOST_WRITE));
    let texture = module.transient_image(&untyped_info());

    let whole = module.copy_buffer_to_image(staging, texture);
    let patch =
        module.copy_buffer_to_image_region(staging, whole, BufferImageCopy::region(4, 8, Extent2D { width: 2, height: 3 }));

    let regions = compile(&module, patch)
        .instructions()
        .iter()
        .filter_map(|(_, ir)| match ir {
            IR::CopyBufferToImage { region: Some(region), .. } => Some((region.image_offset, region.image_extent)),
            _ => None,
        })
        .collect::<Vec<_>>();

    assert_eq!(
        regions,
        vec![
            (Offset3D { x: 0, y: 0, z: 0 }, extent_3d()),
            (Offset3D { x: 4, y: 8, z: 0 }, Extent3D { width: 2, height: 3, depth: 1 }),
        ]
    );
}

#[test]
fn blend_state_is_per_attachment_and_keys_the_pipeline() {
    let (mut module, attachment) = module_with_attachment();

    module.begin_rendering(&[(attachment, COLOR_RW)]);
    module.bind_graphics_pipeline(PipelineId(0));
    module.draw(3u32, 1u32);
    module.broadcast_color_blend(BlendPreset::AlphaBlend.state());
    module.draw(3u32, 1u32);
    let end = module.end_rendering();

    let draws = draws(&compile(&module, end));
    assert_eq!(draws[0].1.blend, vec![BlendPreset::Off.state()]);
    assert_eq!(draws[1].1.blend, vec![BlendPreset::AlphaBlend.state()]);
    assert_ne!(draws[0].1, draws[1].1);
}

#[test]
fn variables_that_start_the_same_are_still_two_separate_slots() {
    let mut module = Module::new();
    assert_eq!(module.constant_u32(7), module.constant_u32(7));

    let first = module.declare_u32_var("first", 7);
    let second = module.declare_u32_var("second", 7);
    assert_ne!(first, second);
}

#[test]
fn setting_a_variable_leaves_the_compiled_instructions_alone() {
    let (mut module, target) = module_with_attachment();
    let color = module.declare_clear_var("clear color", BLACK);
    let cleared = module.clear_from(target, color);
    let end = module.present(cleared);

    let before = compile(&module, end);
    let mut after = compile(&module, end);
    after.set(color, Value::ClearValue(WHITE));

    assert_eq!(before.instructions().len(), after.instructions().len());
    assert!(before.instructions().iter().zip(after.instructions()).all(|((a, _), (b, _))| a == b));
}

#[test]
fn an_image_sized_by_a_variable_leaves_the_viewport_to_be_recorded() {
    let mut module = Module::new();
    let extent = module.declare_extent_3d_var("extent", Extent3D { width: 8, height: 8, depth: 1 });
    let target = module.transient_image_sized(&transient_info(), extent);

    module.begin_rendering(&[(target, COLOR_RW)]);
    module.bind_graphics_pipeline(PipelineId(0));
    module.set_viewport(0, Viewport::framebuffer());
    module.set_dynamic_state(DynamicStateFlags(0));
    module.draw(3u32, 1u32);
    let end = module.end_rendering();

    let draws = draws(&compile(&module, end));
    assert_eq!(draws.len(), 1);
    assert!(draws[0].1.viewports.is_empty(), "{:?}", draws[0].1.viewports);
    assert!(draws[0].1.scissors.is_empty(), "{:?}", draws[0].1.scissors);
    assert!(draws[0].1.dynamic.0 & DYNAMIC_VIEWPORT != 0);
    assert!(draws[0].1.dynamic.0 & DYNAMIC_SCISSOR != 0);
}

#[test]
fn a_dispatch_per_pixel_of_a_variable_sized_image_is_sized_when_it_runs() {
    let mut module = Module::new();
    let extent = module.declare_extent_3d_var("extent", Extent3D { width: 8, height: 8, depth: 1 });
    let target = module.transient_image_sized(&transient_info(), extent);

    module.begin_compute(&[]);
    module.bind_compute_pipeline(PipelineId(0));
    module.write(target);
    module.dispatch_invocations_per_pixel(target);
    let end = module.end_compute();

    let compiled = compile(&module, end);
    match dispatch_sizes(&compiled).as_slice() {
        [DispatchSize::InvocationsPerPixel { image, scale_x, scale_y, scale_z }] => {
            assert_eq!(root(&module, *image), target);
            assert_eq!([*scale_x, *scale_y, *scale_z].map(f32::from_bits), [1.0; 3]);
        },
        sizes => panic!("expected one dispatch sized per pixel, got {sizes:?}"),
    }
}

/// A conditional clear followed by a blit: the arm that clears leaves the image in the
/// transfer-destination layout, the arm that does not leaves it untouched, and the two have
/// to agree before the blit that follows the merge can name one layout.
fn module_with_a_conditional_clear() -> (Module, ValueId, ValueId) {
    let (mut module, destination) = module_with_attachment();
    let source = module.transient_image(&transient_info());
    let animate = module.declare_bool_var("animate", true);

    let selection = module.set_condition(animate);
    let taken = module.clear(source, WHITE);
    let selection = module.otherwise(selection, taken);
    let cleared = module.end_condition(selection, source);
    let end = module.blit(cleared, destination);

    (module, source, end)
}

fn block_at(compiled: &Program, label: LabelId) -> usize {
    compiled
        .instructions()
        .iter()
        .position(|(_, ir)| matches!(ir, IR::Label { label: l } if *l == label))
        .expect("every declared label is placed")
}

/// The labels of the one selection the module records, read back off the branch rather than
/// assumed, since which number a label gets is not part of the contract.
fn selection_labels(compiled: &Program) -> (LabelId, LabelId, LabelId) {
    let merge = compiled
        .instructions()
        .iter()
        .find_map(|(_, ir)| match ir {
            IR::SelectionMerge { merge } => Some(*merge),
            _ => None,
        })
        .expect("the module records one selection");

    let (taken, skipped) = compiled
        .instructions()
        .iter()
        .find_map(|(_, ir)| match ir {
            IR::BranchConditional { true_label, false_label, .. } => Some((*true_label, *false_label)),
            _ => None,
        })
        .expect("the selection branches");

    (merge, taken, skipped)
}

#[test]
fn every_block_ends_in_a_terminator() {
    let (module, _, end) = module_with_a_conditional_clear();
    let compiled = compile(&module, end);
    let instructions = compiled.instructions();

    let terminated = |index: usize| {
        matches!(instructions.get(index), Some((_, IR::Branch { .. } | IR::BranchConditional { .. } | IR::Return)))
    };

    // the globals sit ahead of the first label, so only a label that follows another one
    // closes a block
    let mut blocks = 0;
    for (index, (_, ir)) in instructions.iter().enumerate() {
        if !matches!(ir, IR::Label { .. }) {
            continue;
        }
        if blocks > 0 {
            assert!(terminated(index - 1), "the block before {index} runs on\n{}", compiled.dump());
        }
        blocks += 1;
    }

    assert!(blocks > 0, "{}", compiled.dump());
    assert!(terminated(instructions.len() - 1), "the last block runs off the end\n{}", compiled.dump());
}

#[test]
fn every_global_lands_before_the_first_branch() {
    let (module, _, end) = module_with_a_conditional_clear();
    let compiled = compile(&module, end);

    let first_branch = position(&compiled, |ir| matches!(ir, IR::Branch { .. } | IR::BranchConditional { .. }));

    for (index, (id, ir)) in compiled.instructions().iter().enumerate() {
        assert!(
            !is_global(ir) || index < first_branch,
            "{id:?} is global but sits past the branch at {first_branch}\n{}",
            compiled.dump()
        );
    }
}

#[test]
fn a_constant_a_barrier_names_is_never_defined_inside_a_block() {
    let (module, _, end) = module_with_a_conditional_clear();
    let compiled = compile(&module, end);
    let instructions = compiled.instructions();

    let first_label = position(&compiled, |ir| matches!(ir, IR::Label { .. }));
    let defined_before = instructions[..first_label].iter().map(|(id, _)| *id).collect::<Vec<_>>();

    for (_, ir) in instructions {
        let operands = match ir {
            IR::MemoryBarrier { src_access, dst_access } => vec![*src_access, *dst_access],
            IR::ImageBarrier { src_access, dst_access, .. } => vec![*src_access, *dst_access],
            _ => continue,
        };

        for operand in operands {
            assert!(defined_before.contains(&operand), "{operand:?} is only defined on some paths\n{}", compiled.dump());
        }
    }
}

#[test]
fn a_label_is_the_first_instruction_of_its_block() {
    let (module, _, end) = module_with_a_conditional_clear();
    let compiled = compile(&module, end);

    let mut open = None;
    for (id, ir) in compiled.instructions() {
        match ir {
            IR::Label { label } => open = Some(*label),
            _ => assert!(
                is_global(ir) || module.block_of(*id).is_none_or(|block| Some(block) == open),
                "{id:?} comes before the label of the block it was recorded in\n{}",
                compiled.dump()
            ),
        }
    }
}

#[test]
fn a_selection_lays_each_block_out_in_one_piece() {
    let (module, _, end) = module_with_a_conditional_clear();
    let compiled = compile(&module, end);

    let mut seen = Vec::new();
    let mut current = None;
    for (id, ir) in compiled.instructions() {
        if let IR::Label { label } = ir {
            assert!(!seen.contains(label), "block {label:?} is laid out in two pieces");
            seen.push(*label);
            current = Some(*label);
            continue;
        }

        // an instruction the module recorded in a block never drifts into another one
        if let Some(block) = module.block_of(*id) {
            if !is_global(ir) {
                assert_eq!(Some(block), current, "{id:?} left the block it was recorded in");
            }
        }
    }

    assert_eq!(seen.len(), 4, "an entry block plus the selection's three");
}

#[test]
fn both_arms_of_a_selection_leave_a_resource_in_the_same_layout() {
    let (module, source, end) = module_with_a_conditional_clear();
    let compiled = compile(&module, end);

    let (merge, taken, skipped) = selection_labels(&compiled);
    let (merge, taken, skipped) = (block_at(&compiled, merge), block_at(&compiled, taken), block_at(&compiled, skipped));

    let layout_leaving = |range: std::ops::Range<usize>| {
        compiled.instructions()[range]
            .iter()
            .filter_map(|(_, ir)| match ir {
                IR::ImageBarrier { new_layout, value, .. } if root(&module, *value) == source => Some(*new_layout),
                _ => None,
            })
            .next_back()
    };

    let cleared = layout_leaving(taken..skipped);
    assert_eq!(cleared, Some(LAYOUT_TRANSFER_DST), "{}", compiled.dump());
    assert_eq!(layout_leaving(skipped..merge), cleared, "{}", compiled.dump());
}

#[test]
fn an_arm_that_touches_nothing_is_still_brought_to_the_join() {
    let (module, source, end) = module_with_a_conditional_clear();
    let compiled = compile(&module, end);

    let (merge, _, skipped) = selection_labels(&compiled);
    let barriers = compiled.instructions()[block_at(&compiled, skipped)..block_at(&compiled, merge)]
        .iter()
        .filter(|(_, ir)| matches!(ir, IR::ImageBarrier { value, .. } if root(&module, *value) == source))
        .count();
    assert_eq!(barriers, 1, "{}", compiled.dump());
}

#[test]
fn an_arm_that_never_reached_a_buffer_waits_on_nothing_at_the_join() {
    let mut module = Module::new();
    let buffer = module.transient_buffer(&BufferInfo::new(256, BUFFER_USAGE_STORAGE_BUFFER, MemoryLocation::GpuOnly));
    let target = module.transient_image(&transient_info());
    let enabled = module.declare_bool_var("enabled", true);

    let selection = module.set_condition(enabled);
    module.begin_compute(&[]);
    module.bind_compute_pipeline(PipelineId(0));
    module.write(target);
    module.read(buffer);
    module.dispatch(1u32, 1u32, 1u32);
    let taken = module.end_compute();
    let selection = module.otherwise(selection, taken);
    let end = module.end_condition(selection, target);

    let compiled = compile(&module, end);
    assert_eq!(memory_barriers(&module, &compiled), vec![], "{}", compiled.dump());
}

fn dispatch_writing(module: &mut Module, buffer: ValueId, pipeline: u32) -> ValueId {
    module.begin_compute(&[]);
    module.bind_compute_pipeline(PipelineId(pipeline));
    module.write(buffer);
    module.dispatch(1u32, 1u32, 1u32);
    module.end_compute()
}

#[test]
fn arms_that_write_a_buffer_the_same_way_need_no_barrier_at_the_join() {
    let mut module = Module::new();
    let buffer = module.import_buffer(&Buffer::default(), access(ACCESS_COMPUTE_READ));
    let enabled = module.declare_bool_var("enabled", true);

    let selection = module.set_condition(enabled);
    let taken = dispatch_writing(&mut module, buffer, 0);
    let selection = module.otherwise(selection, taken);
    let skipped = dispatch_writing(&mut module, buffer, 1);
    let end = module.end_condition(selection, skipped);

    let compiled = compile(&module, end);
    assert_eq!(
        memory_barriers(&module, &compiled),
        vec![
            (access(ACCESS_COMPUTE_READ), access(ACCESS_COMPUTE_WRITE)),
            (access(ACCESS_COMPUTE_READ), access(ACCESS_COMPUTE_WRITE)),
        ],
        "{}",
        compiled.dump()
    );
}

fn read_both(module: &mut Module, target: ValueId, first: ValueId, second: ValueId) -> ValueId {
    module.begin_compute(&[]);
    module.bind_compute_pipeline(PipelineId(0));
    module.write(target);
    module.read_uniform(first);
    module.read_uniform(second);
    module.dispatch(1u32, 1u32, 1u32);
    module.end_compute()
}

#[test]
fn buffers_caught_up_at_the_same_pair_share_one_barrier() {
    let mut module = Module::new();
    let first = module.import_buffer(&Buffer::default(), access(ACCESS_COMPUTE_READ));
    let second = module.import_buffer(&Buffer::default(), access(ACCESS_COMPUTE_READ));
    let target = module.transient_image(&transient_info());
    let enabled = module.declare_bool_var("enabled", true);

    let selection = module.set_condition(enabled);
    let taken = read_both(&mut module, target, first, second);
    let selection = module.otherwise(selection, taken);
    let drawn = module.end_condition(selection, target);
    let end = read_both(&mut module, drawn, first, second);

    let compiled = compile(&module, end);
    let (merge, _, skipped) = selection_labels(&compiled);
    let caught_up = compiled.instructions()[block_at(&compiled, skipped)..block_at(&compiled, merge)]
        .iter()
        .filter(|(_, ir)| matches!(ir, IR::MemoryBarrier { .. }))
        .count();
    assert_eq!(caught_up, 1, "{}", compiled.dump());
}

#[test]
fn an_arm_skips_catching_up_a_resource_the_merge_never_reaches() {
    let (mut module, target) = module_with_attachment();
    let enabled = module.declare_bool_var("enabled", true);
    let vertices = module.declare_buffer_var("vertices", access(ACCESS_HOST_WRITE));
    let indices = module.declare_buffer_var("indices", access(ACCESS_HOST_WRITE));

    let selection = module.set_condition(enabled);
    module.begin_rendering(&[(target, COLOR_RW)]);
    module.bind_graphics_pipeline(PipelineId(0));
    module.bind_vertex_buffer(0, vertices);
    module.bind_index_buffer(indices, INDEX_TYPE_UINT32);
    module.draw(3u32, 1u32);
    let taken = module.end_rendering();
    let selection = module.otherwise(selection, taken);
    let drawn = module.end_condition(selection, target);

    let end = module.release(drawn, access(ACCESS_PRESENT), DOMAIN_PRESENT);
    let compiled = compile(&module, end);
    let (merge, _, skipped) = selection_labels(&compiled);
    let caught_up = compiled.instructions()[block_at(&compiled, skipped)..block_at(&compiled, merge)]
        .iter()
        .filter(|(_, ir)| matches!(ir, IR::MemoryBarrier { .. }))
        .count();
    assert_eq!(caught_up, 0, "{}", compiled.dump());
}

fn pushed_block(compiled: &Program) -> (PushConstants, Vec<PushSource>) {
    compiled
        .instructions()
        .iter()
        .find_map(|(_, ir)| match ir {
            IR::Draw { dynamic, .. } => Some((dynamic.push_constants.clone(), dynamic.push_sources.clone())),
            _ => None,
        })
        .expect("the draw carries the block in force")
}

#[test]
fn push_constants_from_a_variable_reach_the_draw_as_a_variable() {
    let (mut module, target) = module_with_attachment();
    let block = module.declare_bytes_var("push block", 16);

    module.begin_rendering(&[(target, COLOR_RW)]);
    module.bind_graphics_pipeline(PipelineId(0));
    module.push_constants_from(block);
    module.draw(3u32, 1u32);
    let end = module.end_rendering();

    let (_, sources) = pushed_block(&compile(&module, end));
    assert_eq!(sources, vec![PushSource::Variable { offset: 0, size: 16, source: block }]);
}

#[test]
fn a_pushed_block_keeps_its_variable_in_the_program() {
    let (mut module, target) = module_with_attachment();
    let block = module.declare_bytes_var("push block", 16);

    module.begin_rendering(&[(target, COLOR_RW)]);
    module.bind_graphics_pipeline(PipelineId(0));
    module.push_constants_from(block);
    module.draw(3u32, 1u32);
    let end = module.end_rendering();

    let compiled = compile(&module, end);
    let declared = compiled.instructions().iter().any(|(id, ir)| *id == block && matches!(ir, IR::Variable { .. }));

    assert!(declared, "{}", compiled.dump());
}

#[test]
fn writing_bytes_over_a_variable_block_replaces_it() {
    let (mut module, target) = module_with_attachment();
    let block = module.declare_bytes_var("push block", 16);

    module.begin_rendering(&[(target, COLOR_RW)]);
    module.bind_graphics_pipeline(PipelineId(0));
    module.push_constants_from(block);
    module.push_constant_bytes(0, &7u32.to_ne_bytes());
    module.draw(3u32, 1u32);
    let end = module.end_rendering();

    let (pushed, sources) = pushed_block(&compile(&module, end));
    assert!(sources.is_empty());
    assert_eq!(pushed.data, 7u32.to_ne_bytes());
}

#[test]
fn a_branch_target_resolves_to_the_block_it_names() {
    let (module, _, end) = module_with_a_conditional_clear();
    let compiled = compile(&module, end);

    for (_, ir) in compiled.instructions() {
        let targets = match ir {
            IR::Branch { target } => vec![*target],
            IR::BranchConditional { true_label, false_label, .. } => vec![*true_label, *false_label],
            _ => continue,
        };

        for target in targets {
            let index = compiled.label_index(target).expect("a branch names a placed block");
            assert!(matches!(compiled.instructions()[index], (_, IR::Label { label }) if label == target));
        }
    }
}

#[test]
fn a_declared_rendering_access_transitions_before_the_region_opens() {
    let (mut module, attachment) = module_with_attachment();
    let texture = module.transient_image(&untyped_info());

    module.begin_rendering(&[(attachment, COLOR_RW)]);
    module.bind_graphics_pipeline(PipelineId(0));
    module.access(texture, access(ACCESS_VERTEX_SAMPLED));
    module.draw(3u32, 1u32);
    let end = module.end_rendering();

    let compiled = compile(&module, end);
    let sampled = image_barriers(&module, &compiled)
        .into_iter()
        .find(|barrier| barrier.resource == texture)
        .expect("the declared image should be transitioned");
    assert_eq!(sampled.dst, access(ACCESS_VERTEX_SAMPLED));
    assert_eq!(sampled.new_layout, LAYOUT_SHADER_READ_ONLY);

    assert!(
        position(&compiled, |ir| matches!(ir, IR::ImageBarrier { .. }))
            < position(&compiled, |ir| matches!(ir, IR::BeginRendering { .. })),
        "{}",
        compiled.dump()
    );
}

#[test]
fn a_fragment_write_declared_on_a_region_reaches_general_as_a_storage_image() {
    let (mut module, attachment) = module_with_attachment();
    let overdraw = module.transient_image(&untyped_info());

    module.begin_rendering(&[(attachment, COLOR_RW)]);
    module.bind_graphics_pipeline(PipelineId(0));
    module.access(overdraw, access(ACCESS_FRAGMENT_WRITE));
    module.draw(3u32, 1u32);
    let end = module.end_rendering();

    let compiled = compile(&module, end);
    let barrier = image_barriers(&module, &compiled)
        .into_iter()
        .find(|barrier| barrier.resource == overdraw)
        .expect("the declared image should be transitioned");

    assert_eq!(barrier.dst, access(ACCESS_FRAGMENT_WRITE));
    assert_eq!(barrier.new_layout, LAYOUT_GENERAL);
    assert_eq!(image_usage(&compiled, overdraw), IMAGE_USAGE_STORAGE);

    // and it still has to land before the region opens, since no transition can be recorded
    // inside one
    assert!(
        position(&compiled, |ir| matches!(ir, IR::ImageBarrier { .. }))
            < position(&compiled, |ir| matches!(ir, IR::BeginRendering { .. })),
        "{}",
        compiled.dump()
    );
}

#[test]
fn a_viewport_set_past_the_end_pads_the_list_and_the_scissors_to_its_length() {
    let (mut module, attachment) = module_with_attachment();
    let half = Rect2D::Relative { x: 0f32.to_bits(), y: 0f32.to_bits(), width: 0.5f32.to_bits(), height: 0.5f32.to_bits() };

    module.begin_rendering(&[(attachment, COLOR_RW)]);
    module.bind_graphics_pipeline(PipelineId(0));
    module.set_viewport(2, Viewport::from_rect(half));
    module.set_color_blend(0, BlendPreset::Additive.state());
    module.set_depth(DepthState::less());
    module.draw(3u32, 1u32);
    let end = module.end_rendering();

    let compiled = compile(&module, end);
    let dynamic = compiled
        .instructions()
        .iter()
        .filter_map(|(_, ir)| match ir {
            IR::Draw { dynamic, .. } => Some(dynamic.clone()),
            _ => None,
        })
        .collect::<Vec<_>>();
    let draws = draws(&compiled);
    assert_eq!(draws.len(), 1);
    assert_eq!(draws[0].1.viewport_count, 3);
    assert_eq!(
        dynamic[0].viewports,
        vec![Viewport::framebuffer(), Viewport::framebuffer(), Viewport::from_rect(half)]
    );
    assert_eq!(dynamic[0].scissors, vec![Rect2D::Framebuffer, Rect2D::Framebuffer, Rect2D::Framebuffer]);
    assert_eq!(draws[0].1.blend, vec![BlendPreset::Additive.state()]);
    // without a depth attachment the depth test stays off
    assert_eq!(draws[0].1.depth, DepthState { test_enable: false, write_enable: false, ..DepthState::less() });
}
