use vir::access::{Access, ACCESS_COLOR_READ, ACCESS_COLOR_WRITE, LAYOUT_UNDEFINED, STAGE_FRAGMENT};
use vir::analysis::{DescriptorBinding, Unchecked};
use vir::executor::{
    blit_offsets, ceil_div, group_by_set, groups_for, image_type, plan_descriptors, render_extent,
    resolve_push_constants, write_active, ExecError, ResolvedImageDescriptor, Values, Visit, Walk, IMAGE_TYPE_1D,
    IMAGE_TYPE_2D, IMAGE_TYPE_3D, VIEW_TYPE_1D_ARRAY, VIEW_TYPE_3D,
};
use vir::ids::{PipelineId, ValueId};
use vir::ir::{Constant, DESCRIPTOR_TYPE_COMBINED_IMAGE_SAMPLER, DESCRIPTOR_TYPE_SAMPLED_IMAGE, IR};
use vir::program::Value;
use vir::module::Module;
use vir::resource::{Extent2D, Extent3D, Image, ImageAttachment, Offset3D, VIEW_TYPE_2D};
use vir::state::{PushConstants, PushSource};

fn one_pass_program() -> vir::program::Program {
    let extent = Extent3D { width: 64, height: 32, depth: 1 };
    let attachment = ImageAttachment::new(Image::imported(0, 43, extent, 1), 43, extent, 1, LAYOUT_UNDEFINED);
    let mut module = Module::new();
    let target = module.import_attachment(&attachment);
    module.begin_rendering(&[(target, Access(ACCESS_COLOR_READ | ACCESS_COLOR_WRITE))]);
    module.bind_graphics_pipeline(PipelineId(0));
    module.draw(3u32, 1u32);
    let end = module.end_rendering();
    assert!(module.is_compilable(&[end]));
    module.compile(&Unchecked, end).unwrap()
}

/// A run of a program without branches visits its instructions in order, executing all but
/// its label, and ends at its return.
#[test]
fn a_run_without_branches_visits_every_instruction_in_order() {
    let program = one_pass_program();
    let count = program.instructions().len();
    let mut walk = Walk::start();
    let mut runs = Vec::new();
    loop {
        match walk.step(&program, false).unwrap() {
            Visit::Run(at) => runs.push(at),
            Visit::Skip => {},
            Visit::Choose { .. } => panic!("no phi in a program without branches"),
            Visit::Finish => break,
        }
    }
    assert!(runs.windows(2).all(|w| w[0] < w[1]));
    // every instruction but the label that opens the entry block and the final return
    assert_eq!(runs.len(), count - 2);
    assert_eq!(walk.block, Some(vir::ids::LabelId(0)));
}

#[test]
fn a_dispatch_takes_enough_groups_to_cover_every_invocation() {
    assert_eq!(groups_for([65, 33, 1], [8, 8, 1]), [9, 5, 1]);
    assert_eq!(groups_for([64, 32, 0], [8, 8, 1]), [8, 4, 0]);
    assert_eq!(ceil_div(0, 4), 0);
    assert_eq!(ceil_div(u32::MAX, 2), 2_147_483_648);
}

#[test]
fn a_blit_spans_the_whole_extent_with_at_least_one_layer_of_depth() {
    let offsets = blit_offsets(Extent3D { width: 16, height: 8, depth: 0 });
    assert_eq!(offsets[0], Offset3D { x: 0, y: 0, z: 0 });
    assert_eq!(offsets[1], Offset3D { x: 16, y: 8, z: 1 });
}

#[test]
fn views_name_the_type_of_image_they_view() {
    assert_eq!(image_type(VIEW_TYPE_1D_ARRAY), IMAGE_TYPE_1D);
    assert_eq!(image_type(VIEW_TYPE_3D), IMAGE_TYPE_3D);
    assert_eq!(image_type(VIEW_TYPE_2D), IMAGE_TYPE_2D);
}

#[test]
fn a_render_area_comes_from_the_pass_or_its_first_attachment() {
    let color = Extent3D { width: 4, height: 2, depth: 1 };
    let depth = Extent3D { width: 8, height: 8, depth: 1 };
    let area = Extent2D { width: 1, height: 1 };
    assert_eq!(render_extent(Some(area), &vec![color], None), Ok(area));
    assert_eq!(render_extent(None, &vec![color], Some(depth)), Ok(Extent2D { width: 4, height: 2 }));
    assert_eq!(render_extent(None, &Vec::new(), Some(depth)), Ok(Extent2D { width: 8, height: 8 }));
    assert_eq!(render_extent(None, &Vec::new(), None), Err(ExecError::NoRenderArea));
}

fn descriptor(set: u32, binding: u32, image_view: u64, sampler: Option<u64>) -> ResolvedImageDescriptor {
    ResolvedImageDescriptor { set, binding, image_view, sampler }
}

#[test]
fn a_written_descriptor_takes_the_place_of_the_one_before_it() {
    let mut table = Vec::new();
    assert!(write_active(&mut table, descriptor(1, 0, 10, None)));
    assert!(write_active(&mut table, descriptor(0, 2, 11, None)));
    assert!(write_active(&mut table, descriptor(0, 1, 12, Some(5))));
    assert_eq!(table, vec![descriptor(0, 1, 12, Some(5)), descriptor(0, 2, 11, None), descriptor(1, 0, 10, None)]);

    // the same descriptor again changes nothing, another one replaces it
    assert!(!write_active(&mut table, descriptor(0, 2, 11, None)));
    assert!(write_active(&mut table, descriptor(0, 2, 13, None)));
    assert_eq!(table[1], descriptor(0, 2, 13, None));
    assert_eq!(table.len(), 3);
}

fn binding(set: u32, binding: u32, descriptor_type: i32) -> DescriptorBinding {
    DescriptorBinding {
        set,
        binding,
        descriptor_type,
        count: 1,
        variable_count: false,
        stages: STAGE_FRAGMENT,
        access: Access(0),
    }
}

#[test]
fn a_pipeline_is_bound_with_what_the_pass_wrote_for_each_of_its_bindings() {
    let table = vec![descriptor(0, 0, 10, Some(3)), descriptor(0, 1, 11, None), descriptor(2, 0, 12, None)];
    let bindings = vec![
        binding(0, 0, DESCRIPTOR_TYPE_COMBINED_IMAGE_SAMPLER),
        binding(0, 1, DESCRIPTOR_TYPE_SAMPLED_IMAGE),
        binding(1, 0, DESCRIPTOR_TYPE_SAMPLED_IMAGE),
        binding(2, 0, DESCRIPTOR_TYPE_SAMPLED_IMAGE),
    ];

    // set 1 is bindless, so nothing has to be written there
    let planned = plan_descriptors(&table, &bindings, Some(1)).unwrap();
    assert_eq!(
        planned,
        vec![
            (descriptor(0, 0, 10, Some(3)), DESCRIPTOR_TYPE_COMBINED_IMAGE_SAMPLER),
            (descriptor(0, 1, 11, None), DESCRIPTOR_TYPE_SAMPLED_IMAGE),
            (descriptor(2, 0, 12, None), DESCRIPTOR_TYPE_SAMPLED_IMAGE),
        ]
    );
    let groups = group_by_set(&planned);
    assert_eq!(groups.len(), 2);
    assert_eq!(groups[0].0, 0);
    assert_eq!(groups[0].1.len(), 2);
    assert_eq!(groups[1].0, 2);

    // without it, set 1 misses its descriptor
    assert_eq!(plan_descriptors(&table, &bindings, None), Err(ExecError::MissingDescriptor));
}

#[test]
fn a_descriptor_has_to_fit_the_binding_it_is_bound_at() {
    let null_view = vec![descriptor(0, 0, 0, None)];
    let null_sampler = vec![descriptor(0, 0, 1, Some(0))];
    let sampled = vec![descriptor(0, 0, 1, None)];
    let combined = vec![binding(0, 0, DESCRIPTOR_TYPE_COMBINED_IMAGE_SAMPLER)];
    assert_eq!(plan_descriptors(&null_view, &combined, None), Err(ExecError::NullHandle));
    assert_eq!(plan_descriptors(&null_sampler, &combined, None), Err(ExecError::NullHandle));
    assert_eq!(plan_descriptors(&sampled, &combined, None), Err(ExecError::SamplerMismatch));
}

#[test]
fn pushed_variables_and_addresses_land_where_they_were_declared() {
    let mut push = PushConstants::default();
    push.write(0, &[0; 16]);
    let sources = vec![
        PushSource::Variable { offset: 0, size: 4, source: ValueId(1) },
        PushSource::Address { offset: 8, buffer: ValueId(2) },
    ];
    let resolved = vec![vec![1, 2, 3, 4], vec![9, 8, 7, 6, 5, 4, 3, 2]];
    let out = resolve_push_constants(&push, &sources, &resolved).unwrap();
    assert_eq!(out.offset, 0);
    assert_eq!(out.data, vec![1, 2, 3, 4, 0, 0, 0, 0, 9, 8, 7, 6, 5, 4, 3, 2]);

    // a variable of the wrong size, or an address past the run, is refused
    let short = vec![vec![1, 2, 3], vec![0; 8]];
    assert_eq!(resolve_push_constants(&push, &sources, &short).unwrap_err(), ExecError::PushConstantsMismatch);
    let past = vec![PushSource::Address { offset: 12, buffer: ValueId(2) }];
    assert_eq!(
        resolve_push_constants(&push, &past, &vec![vec![0; 8]]).unwrap_err(),
        ExecError::PushConstantsMismatch
    );
}

#[test]
fn an_index_picks_its_element_and_fails_past_the_end() {
    let mut values = Values::new();
    assert!(values.evaluate(ValueId(0), &IR::Constant(Constant::U32(1))).is_ok());
    assert!(values.evaluate(ValueId(1), &IR::Constant(Constant::U32(2))).is_ok());
    let array = IR::Array { ty: ValueId(7), elements: vec![ValueId(4), ValueId(5)] };
    assert!(values.evaluate(ValueId(2), &array).is_ok());
    assert!(values.evaluate(ValueId(3), &IR::Index { array: ValueId(2), index: ValueId(0) }).is_ok());
    assert!(matches!(values.slots[3], Value::Reference(ValueId(5))));
    assert!(matches!(
        values.evaluate(ValueId(6), &IR::Index { array: ValueId(2), index: ValueId(1) }),
        Err(ExecError::IndexOutOfRange)
    ));
    assert_eq!(values.number(ValueId(0)), Some(1));
    assert_eq!(values.elements(ValueId(2)).map(|e| e.len()), Some(2));
}
