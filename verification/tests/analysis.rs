use vir::access::{Access, ACCESS_COLOR_READ, ACCESS_COLOR_WRITE, ACCESS_FRAGMENT_SAMPLED, ACCESS_VERTEX_SAMPLED, STAGE_FRAGMENT, STAGE_VERTEX};
use vir::analysis::{
    analyze_descriptors, descriptors_are_compatible_with_pipeline, supports_type, DescriptorBinding, PipelineBindings,
    Unchecked, DESCRIPTOR_TYPE_STORAGE_IMAGE,
};
use vir::compile::CompileError;
use vir::ids::{PipelineId, ValueId};
use vir::ir::{ClearValue, Constant, Descriptor, IR, DESCRIPTOR_TYPE_COMBINED_IMAGE_SAMPLER, DESCRIPTOR_TYPE_SAMPLED_IMAGE};
use vir::module::Module;
use vir::program::Program;
use vir::resource::{Extent2D, ImageInfo};

/// Vulkan's raw `R8G8B8A8_UNORM`.
const FORMAT: i32 = 37;
const COLOR_RW: Access = Access(ACCESS_COLOR_READ | ACCESS_COLOR_WRITE);
const BLACK: ClearValue = ClearValue { r: 0, g: 0, b: 0, a: 0x3f80_0000 };

fn a_sampler() -> u64 {
    1
}

fn target(module: &mut Module) -> ValueId {
    module.transient_image(&ImageInfo::color_target(Extent2D { width: 4, height: 4 }, FORMAT))
}

/// Pipeline bindings written out by tests rather than reflected from shaders.
struct Declared {
    bindings: Vec<DescriptorBinding>,
    bindless: Option<u32>,
}

impl Declared {
    fn new(bindings: &[(u32, u32, i32)]) -> Self {
        Self::in_stages(bindings, STAGE_FRAGMENT)
    }

    fn in_stages(bindings: &[(u32, u32, i32)], stages: u32) -> Self {
        Declared {
            bindings: bindings
                .iter()
                .map(|(set, binding, descriptor_type)| DescriptorBinding {
                    set: *set,
                    binding: *binding,
                    descriptor_type: *descriptor_type,
                    count: 1,
                    variable_count: false,
                    stages,
                    access: Access::sampled_by(stages),
                })
                .collect(),
            bindless: None,
        }
    }

    fn with_bindless(mut self, set: u32) -> Self {
        self.bindless = Some(set);
        self
    }
}

impl PipelineBindings for Declared {
    fn bindings(&self, _: PipelineId) -> Option<Vec<DescriptorBinding>> {
        Some(self.bindings.clone())
    }

    fn bindless_set(&self, _: PipelineId) -> Option<u32> {
        self.bindless
    }
}

/// Bindings that differ from one pipeline to the next.
#[derive(Default)]
struct PerPipeline {
    bindings: Vec<(PipelineId, Vec<DescriptorBinding>)>,
}

impl PerPipeline {
    fn with_binding(self, pipeline: PipelineId, stages: u32) -> Self {
        self.with_typed_binding(pipeline, DESCRIPTOR_TYPE_COMBINED_IMAGE_SAMPLER, stages, Access::sampled_by(stages))
    }

    fn with_typed_binding(mut self, pipeline: PipelineId, descriptor_type: i32, stages: u32, access: Access) -> Self {
        self.bindings.push((
            pipeline,
            vec![DescriptorBinding { set: 0, binding: 0, descriptor_type, count: 1, variable_count: false, stages, access }],
        ));
        self
    }
}

impl PipelineBindings for PerPipeline {
    fn bindings(&self, pipeline: PipelineId) -> Option<Vec<DescriptorBinding>> {
        self.bindings.iter().find(|(id, _)| *id == pipeline).map(|(_, bindings)| bindings.clone())
    }

    fn bindless_set(&self, _: PipelineId) -> Option<u32> {
        None
    }
}

/// A pass that writes what `writes` records and then draws once.
fn drawing(writes: impl FnOnce(&mut Module, ValueId)) -> (Module, ValueId) {
    let mut module = Module::new();
    let attachment = target(&mut module);
    let texture = target(&mut module);
    module.begin_rendering(&[(attachment, COLOR_RW)]);
    module.bind_graphics_pipeline(PipelineId(0));
    writes(&mut module, texture);
    module.draw(3u32, 1u32);
    let end = module.end_rendering();
    (module, end)
}

/// What the barrier for the written image waits on, read back off the emitted barrier.
fn sampled_barrier_for(program: &Program, sampled: ValueId) -> Access {
    let instructions = program.instructions();
    let constant = |id: &ValueId| {
        instructions.iter().find_map(|(instr, ir)| match ir {
            IR::Constant(Constant::Access(access)) if instr == id => Some(*access),
            _ => None,
        })
    };
    instructions
        .iter()
        .find_map(|(_, ir)| match ir {
            IR::ImageBarrier { dst_access, value, .. } if *value == sampled => constant(dst_access),
            _ => None,
        })
        .expect("the written image should be transitioned")
}

fn sampled_barrier(program: &Program) -> Access {
    let sampled = program
        .instructions()
        .iter()
        .find_map(|(_, ir)| match ir {
            IR::WriteDescriptor { descriptor, .. } => Some(descriptor.image()),
            _ => None,
        })
        .expect("the write should survive");
    sampled_barrier_for(program, sampled)
}

#[test]
fn a_write_that_matches_the_reflected_type_is_accepted() {
    let combined = Declared::new(&[(0, 0, DESCRIPTOR_TYPE_COMBINED_IMAGE_SAMPLER)]);
    let (module, end) = drawing(|m, texture| m.bind_texture(0, 0, texture, a_sampler()));
    assert!(module.compile(&combined, end).is_ok());
}

#[test]
fn a_write_of_the_wrong_type_is_refused() {
    let combined = Declared::new(&[(0, 0, DESCRIPTOR_TYPE_COMBINED_IMAGE_SAMPLER)]);
    let (module, end) = drawing(|m, texture| m.bind_image(0, 0, texture));
    assert!(module.compile(&combined, end).is_err());
}

#[test]
fn a_binding_nothing_wrote_is_refused() {
    let combined = Declared::new(&[(0, 0, DESCRIPTOR_TYPE_COMBINED_IMAGE_SAMPLER)]);
    let (module, end) = drawing(|_, _| {});
    assert!(module.compile(&combined, end).is_err());
}

#[test]
fn a_write_after_the_draw_does_not_cover_it() {
    let combined = Declared::new(&[(0, 0, DESCRIPTOR_TYPE_COMBINED_IMAGE_SAMPLER)]);
    let mut module = Module::new();
    let attachment = target(&mut module);
    let texture = target(&mut module);
    module.begin_rendering(&[(attachment, COLOR_RW)]);
    module.bind_graphics_pipeline(PipelineId(0));
    module.draw(3u32, 1u32);
    module.bind_texture(0, 0, texture, a_sampler());
    let end = module.end_rendering();
    assert!(module.compile(&combined, end).is_err());
}

#[test]
fn a_write_the_pipeline_does_not_declare_is_allowed() {
    let none = Declared::new(&[]);
    let (module, end) = drawing(|m, texture| m.bind_texture(3, 1, texture, a_sampler()));
    let compiled = module.compile(&none, end).unwrap();
    let written = compiled.instructions().iter().filter(|(_, ir)| matches!(ir, IR::WriteDescriptor { .. })).count();
    assert_eq!(written, 1);
}

#[test]
fn a_write_before_a_pipeline_is_resolved_from_the_consuming_draw() {
    let combined = Declared::new(&[(0, 0, DESCRIPTOR_TYPE_COMBINED_IMAGE_SAMPLER)]);
    let mut module = Module::new();
    let attachment = target(&mut module);
    let texture = target(&mut module);
    module.begin_rendering(&[(attachment, COLOR_RW)]);
    module.bind_texture(0, 0, texture, a_sampler());
    module.bind_graphics_pipeline(PipelineId(0));
    module.draw(3u32, 1u32);
    let end = module.end_rendering();

    let compiled = module.compile(&combined, end).unwrap();
    assert_eq!(sampled_barrier(&compiled), Access(ACCESS_FRAGMENT_SAMPLED));
}

#[test]
fn a_write_outside_a_pass_is_dropped_without_affecting_unrelated_compilation() {
    let mut module = Module::new();
    let attachment = target(&mut module);
    let texture = target(&mut module);
    module.bind_texture(0, 0, texture, a_sampler());
    let end = module.clear(attachment, BLACK);
    assert!(module.compile(&Unchecked, end).is_ok());
}

#[test]
fn a_descriptor_consumed_without_a_valid_pipeline_is_refused() {
    let mut module = Module::new();
    let attachment = target(&mut module);
    let texture = target(&mut module);
    module.begin_rendering(&[(attachment, COLOR_RW)]);
    module.bind_graphics_pipeline(PipelineId::invalid());
    module.bind_texture(0, 0, texture, a_sampler());
    module.draw(3u32, 1u32);
    let end = module.end_rendering();
    assert!(matches!(module.compile(&Unchecked, end), Err(CompileError::InvalidDescriptors)));
}

#[test]
fn a_write_into_the_bindless_set_is_refused() {
    let bindless = Declared::new(&[]).with_bindless(3);
    let (module, end) = drawing(|m, texture| m.bind_texture(3, 1, texture, a_sampler()));
    assert!(module.compile(&bindless, end).is_err());
}

#[test]
fn a_bindless_binding_needs_no_write() {
    let bindless = Declared::new(&[(3, 1, DESCRIPTOR_TYPE_COMBINED_IMAGE_SAMPLER)]).with_bindless(3);
    let (module, end) = drawing(|_, _| {});
    assert!(module.compile(&bindless, end).is_ok());
}

#[test]
fn a_combined_image_sampler_written_with_no_sampler_is_refused() {
    let combined = Declared::new(&[(0, 0, DESCRIPTOR_TYPE_COMBINED_IMAGE_SAMPLER)]);
    let (module, end) = drawing(|m, texture| m.bind_texture(0, 0, texture, 0));
    assert!(module.compile(&combined, end).is_err());
}

#[test]
fn a_write_does_not_carry_into_the_next_pass() {
    let combined = Declared::new(&[(0, 0, DESCRIPTOR_TYPE_COMBINED_IMAGE_SAMPLER)]);
    let mut module = Module::new();
    let attachment = target(&mut module);
    let texture = target(&mut module);
    module.begin_rendering(&[(attachment, COLOR_RW)]);
    module.bind_graphics_pipeline(PipelineId(0));
    module.bind_texture(0, 0, texture, a_sampler());
    module.draw(3u32, 1u32);
    let first = module.end_rendering();
    module.begin_rendering(&[(first, COLOR_RW)]);
    module.bind_graphics_pipeline(PipelineId(0));
    module.draw(3u32, 1u32);
    let end = module.end_rendering();
    assert!(module.compile(&combined, end).is_err());
}

#[test]
fn the_stage_that_declares_a_binding_decides_its_access() {
    let write = &[(0, 0, DESCRIPTOR_TYPE_COMBINED_IMAGE_SAMPLER)];
    let bind = |m: &mut Module, texture| m.bind_texture(0, 0, texture, a_sampler());

    let (module, end) = drawing(bind);
    let fragment = Declared::in_stages(write, STAGE_FRAGMENT);
    assert_eq!(sampled_barrier(&module.compile(&fragment, end).unwrap()), Access(ACCESS_FRAGMENT_SAMPLED));

    let (module, end) = drawing(bind);
    let vertex = Declared::in_stages(write, STAGE_VERTEX);
    assert_eq!(sampled_barrier(&module.compile(&vertex, end).unwrap()), Access(ACCESS_VERTEX_SAMPLED));

    let (module, end) = drawing(bind);
    let both = Declared::in_stages(write, STAGE_VERTEX | STAGE_FRAGMENT);
    assert_eq!(
        sampled_barrier(&module.compile(&both, end).unwrap()),
        Access(ACCESS_VERTEX_SAMPLED | ACCESS_FRAGMENT_SAMPLED)
    );
}

#[test]
fn an_unchecked_compile_refuses_a_descriptor_write() {
    let (module, end) = drawing(|m, texture| m.bind_texture(0, 0, texture, a_sampler()));
    assert!(matches!(module.compile(&Unchecked, end), Err(CompileError::InvalidDescriptors)));
}

#[test]
fn a_standing_write_widens_for_every_pipeline_that_consumes_it() {
    let fragment = PipelineId(0);
    let vertex = PipelineId(1);
    let pipelines = PerPipeline::default().with_binding(fragment, STAGE_FRAGMENT).with_binding(vertex, STAGE_VERTEX);

    let mut module = Module::new();
    let attachment = target(&mut module);
    let texture = target(&mut module);
    module.begin_rendering(&[(attachment, COLOR_RW)]);
    module.bind_graphics_pipeline(fragment);
    module.bind_texture(0, 0, texture, a_sampler());
    module.draw(3u32, 1u32);
    module.bind_graphics_pipeline(vertex);
    module.draw(3u32, 1u32);
    let end = module.end_rendering();

    let compiled = module.compile(&pipelines, end).unwrap();
    assert_eq!(sampled_barrier_for(&compiled, texture), Access(ACCESS_FRAGMENT_SAMPLED | ACCESS_VERTEX_SAMPLED));
}

#[test]
fn rewriting_a_descriptor_starts_a_new_access_association() {
    let fragment = PipelineId(0);
    let vertex = PipelineId(1);
    let pipelines = PerPipeline::default().with_binding(fragment, STAGE_FRAGMENT).with_binding(vertex, STAGE_VERTEX);

    let mut module = Module::new();
    let attachment = target(&mut module);
    let first = target(&mut module);
    let second = target(&mut module);
    module.begin_rendering(&[(attachment, COLOR_RW)]);
    module.bind_graphics_pipeline(fragment);
    module.bind_texture(0, 0, first, a_sampler());
    module.draw(3u32, 1u32);
    module.bind_graphics_pipeline(vertex);
    module.bind_texture(0, 0, second, a_sampler());
    module.draw(3u32, 1u32);
    let end = module.end_rendering();

    let compiled = module.compile(&pipelines, end).unwrap();
    assert_eq!(sampled_barrier_for(&compiled, first), Access(ACCESS_FRAGMENT_SAMPLED));
    assert_eq!(sampled_barrier_for(&compiled, second), Access(ACCESS_VERTEX_SAMPLED));
}

#[test]
fn one_standing_write_cannot_be_inferred_as_two_descriptor_types() {
    let sampled = PipelineId(0);
    let storage = PipelineId(1);
    let pipelines = PerPipeline::default()
        .with_typed_binding(sampled, DESCRIPTOR_TYPE_SAMPLED_IMAGE, STAGE_FRAGMENT, Access(ACCESS_FRAGMENT_SAMPLED))
        .with_typed_binding(storage, DESCRIPTOR_TYPE_STORAGE_IMAGE, STAGE_FRAGMENT, Access(ACCESS_FRAGMENT_SAMPLED));

    let mut module = Module::new();
    let attachment = target(&mut module);
    let image = target(&mut module);
    module.begin_rendering(&[(attachment, COLOR_RW)]);
    module.bind_graphics_pipeline(sampled);
    module.bind_image(0, 0, image);
    module.draw(3u32, 1u32);
    module.bind_graphics_pipeline(storage);
    module.draw(3u32, 1u32);
    let end = module.end_rendering();

    assert!(module.compile(&pipelines, end).is_err());
}

#[test]
fn rebinding_allows_reflection_to_infer_a_new_descriptor_type() {
    let sampled = PipelineId(0);
    let storage = PipelineId(1);
    let pipelines = PerPipeline::default()
        .with_typed_binding(sampled, DESCRIPTOR_TYPE_SAMPLED_IMAGE, STAGE_FRAGMENT, Access(ACCESS_FRAGMENT_SAMPLED))
        .with_typed_binding(storage, DESCRIPTOR_TYPE_STORAGE_IMAGE, STAGE_FRAGMENT, Access(ACCESS_FRAGMENT_SAMPLED));

    let mut module = Module::new();
    let attachment = target(&mut module);
    let sampled_image = target(&mut module);
    let storage_image = target(&mut module);
    module.begin_rendering(&[(attachment, COLOR_RW)]);
    module.bind_graphics_pipeline(sampled);
    module.bind_image(0, 0, sampled_image);
    module.draw(3u32, 1u32);
    module.bind_graphics_pipeline(storage);
    module.bind_image(0, 0, storage_image);
    module.draw(3u32, 1u32);
    let end = module.end_rendering();

    assert!(module.compile(&pipelines, end).is_ok());
}

#[test]
fn a_sampled_image_fits_where_an_image_is_read_and_not_where_a_sampler_is_needed() {
    let image = Descriptor::SampledImage { image: ValueId(4) };
    let combined = Descriptor::CombinedImageSampler { image: ValueId(4), sampler: 1 };
    assert!(supports_type(&image, DESCRIPTOR_TYPE_SAMPLED_IMAGE));
    assert!(supports_type(&image, DESCRIPTOR_TYPE_STORAGE_IMAGE));
    assert!(!supports_type(&image, DESCRIPTOR_TYPE_COMBINED_IMAGE_SAMPLER));
    assert!(supports_type(&combined, DESCRIPTOR_TYPE_COMBINED_IMAGE_SAMPLER));
    assert!(!supports_type(&combined, DESCRIPTOR_TYPE_STORAGE_IMAGE));
}

#[test]
fn the_newest_write_at_a_binding_is_the_one_a_draw_sees() {
    let binding = DescriptorBinding {
        set: 0,
        binding: 0,
        descriptor_type: DESCRIPTOR_TYPE_COMBINED_IMAGE_SAMPLER,
        count: 1,
        variable_count: false,
        stages: STAGE_FRAGMENT,
        access: Access(ACCESS_FRAGMENT_SAMPLED),
    };
    let combined = Descriptor::CombinedImageSampler { image: ValueId(4), sampler: 1 };
    let image = Descriptor::SampledImage { image: ValueId(4) };
    let overwritten = vec![(0, 0, ValueId(7), combined), (0, 0, ValueId(8), image)];
    let rewritten = vec![(0, 0, ValueId(7), image), (0, 0, ValueId(8), combined)];
    let types = vec![None, Some(DESCRIPTOR_TYPE_COMBINED_IMAGE_SAMPLER)];
    assert!(!descriptors_are_compatible_with_pipeline(&overwritten, &types, PipelineId(0), Some(vec![binding]), None));
    assert!(descriptors_are_compatible_with_pipeline(&rewritten, &types, PipelineId(0), Some(vec![binding]), None));
    assert!(descriptors_are_compatible_with_pipeline(&overwritten, &types, PipelineId::invalid(), Some(vec![binding]), None));
    assert!(!descriptors_are_compatible_with_pipeline(&rewritten, &types, PipelineId(0), Some(vec![binding]), Some(0)));
}

#[test]
fn a_write_resolved_to_another_type_does_not_fit() {
    let binding = DescriptorBinding {
        set: 0,
        binding: 0,
        descriptor_type: DESCRIPTOR_TYPE_STORAGE_IMAGE,
        count: 1,
        variable_count: false,
        stages: STAGE_FRAGMENT,
        access: Access(ACCESS_FRAGMENT_SAMPLED),
    };
    let image = Descriptor::SampledImage { image: ValueId(4) };
    let log = vec![(0, 0, ValueId(7), image)];
    assert!(!descriptors_are_compatible_with_pipeline(&log, &vec![Some(DESCRIPTOR_TYPE_SAMPLED_IMAGE)], PipelineId(0), Some(vec![binding]), None));
    assert!(!descriptors_are_compatible_with_pipeline(&log, &vec![None], PipelineId(0), Some(vec![binding]), None));
    assert!(descriptors_are_compatible_with_pipeline(&log, &vec![Some(DESCRIPTOR_TYPE_STORAGE_IMAGE)], PipelineId(0), Some(vec![binding]), None));
}

#[test]
fn an_instruction_stream_without_writes_or_pipelines_passes_the_analysis() {
    let instrs = vec![(ValueId(0), IR::Constant(Constant::U32(3)))];
    assert!(analyze_descriptors(&instrs, &Unchecked).is_ok());
}
