use vir::access::{Access, STAGE_FRAGMENT, STAGE_VERTEX};
use vir::analysis::DescriptorBinding;
use vir::ir::DESCRIPTOR_TYPE_COMBINED_IMAGE_SAMPLER;
use vir::pipeline::{
    push_constant_ranges, validate_descriptor_bindings, BindlessDescriptorSet, PipelineLayout, PushConstantRange,
    Reflection, VertexAttribute, VertexInput, VertexLayout,
};

/// Vulkan's raw `R32G32_SFLOAT` and `R32G32B32_SFLOAT`.
const R32G32_SFLOAT: i32 = 103;
const R32G32B32_SFLOAT: i32 = 106;

fn reflection(stage: u32, vertex_inputs: Vec<VertexInput>) -> Reflection {
    Reflection {
        stage,
        entry_point: b"main".to_vec(),
        bindings: Vec::new(),
        push_constant_offset: 0,
        push_constant_size: 0,
        vertex_inputs,
        local_size: [1, 1, 1],
    }
}

fn with_push_constants(stage: u32, offset: u32, size: u32) -> Reflection {
    Reflection { push_constant_offset: offset, push_constant_size: size, ..reflection(stage, Vec::new()) }
}

fn with_bindings(stage: u32, bindings: Vec<DescriptorBinding>) -> Reflection {
    Reflection { bindings, ..reflection(stage, Vec::new()) }
}

fn layout(ranges: Vec<PushConstantRange>) -> PipelineLayout {
    PipelineLayout { push_constant_ranges: ranges, ..Default::default() }
}

fn triples(ranges: &[PushConstantRange]) -> Vec<(u32, u32, u32)> {
    ranges.iter().map(|range| (range.stage_flags, range.offset, range.size)).collect()
}

#[test]
fn packs_vertex_inputs_into_one_tightly_interleaved_binding() {
    let reflections = vec![
        reflection(
            STAGE_VERTEX,
            vec![
                VertexInput { location: 0, format: R32G32_SFLOAT, size: 8 },
                VertexInput { location: 1, format: R32G32B32_SFLOAT, size: 12 },
            ],
        ),
        reflection(STAGE_FRAGMENT, Vec::new()),
    ];

    let layout = VertexLayout::interleaved(&reflections);
    assert_eq!(layout.stride, 20);
    assert_eq!(
        layout.attributes,
        vec![
            VertexAttribute { location: 0, format: R32G32_SFLOAT, offset: 0 },
            VertexAttribute { location: 1, format: R32G32B32_SFLOAT, offset: 8 },
        ]
    );
}

#[test]
fn a_shader_with_no_vertex_inputs_yields_an_empty_layout() {
    let reflections = vec![reflection(STAGE_VERTEX, Vec::new())];
    assert_eq!(VertexLayout::interleaved(&reflections), VertexLayout::default());
}

#[test]
fn stages_that_read_the_same_block_share_one_range() {
    let ranges = push_constant_ranges(&vec![
        with_push_constants(STAGE_VERTEX, 0, 16),
        with_push_constants(STAGE_FRAGMENT, 0, 16),
    ]);

    assert_eq!(ranges.len(), 1);
    assert_eq!(ranges[0].offset, 0);
    assert_eq!(ranges[0].size, 16);
    assert_eq!(ranges[0].stage_flags, STAGE_VERTEX | STAGE_FRAGMENT);
}

#[test]
fn stages_that_disagree_get_a_range_each() {
    let ranges = push_constant_ranges(&vec![
        with_push_constants(STAGE_VERTEX, 0, 16),
        with_push_constants(STAGE_FRAGMENT, 16, 8),
    ]);

    assert_eq!(triples(&ranges), vec![(STAGE_VERTEX, 0, 16), (STAGE_FRAGMENT, 16, 8)]);
}

#[test]
fn stages_without_push_constants_contribute_no_range() {
    let ranges = push_constant_ranges(&vec![reflection(STAGE_VERTEX, Vec::new()), reflection(STAGE_FRAGMENT, Vec::new())]);
    assert!(ranges.is_empty());
}

#[test]
fn a_push_is_clipped_to_the_ranges_that_cover_it() {
    let layout = layout(push_constant_ranges(&vec![
        with_push_constants(STAGE_VERTEX, 0, 16),
        with_push_constants(STAGE_FRAGMENT, 16, 16),
    ]));

    // a push spanning both ranges is split at the boundary
    assert_eq!(layout.cover(0, 32), vec![(STAGE_VERTEX, 0, 16), (STAGE_FRAGMENT, 16, 16)]);

    // one that lands inside a single range keeps its own bounds
    assert_eq!(layout.cover(20, 4), vec![(STAGE_FRAGMENT, 20, 4)]);

    // and one that lands past every range covers nothing
    assert_eq!(layout.cover(64, 4).len(), 0);
}

#[test]
fn ordinary_descriptors_accept_scalar_sampled_images() {
    let reflection = with_bindings(
        STAGE_FRAGMENT,
        vec![DescriptorBinding {
            set: 1,
            binding: 3,
            descriptor_type: DESCRIPTOR_TYPE_COMBINED_IMAGE_SAMPLER,
            count: 1,
            variable_count: false,
            stages: STAGE_FRAGMENT,
            access: Access(0),
        }],
    );
    assert!(validate_descriptor_bindings(&vec![reflection], None).is_ok());
}

#[test]
fn descriptor_arrays_require_an_external_bindless_set() {
    let reflection = with_bindings(
        STAGE_FRAGMENT,
        vec![DescriptorBinding {
            set: 2,
            binding: 0,
            descriptor_type: DESCRIPTOR_TYPE_COMBINED_IMAGE_SAMPLER,
            count: 0,
            variable_count: true,
            stages: STAGE_FRAGMENT,
            access: Access(0),
        }],
    );
    assert!(validate_descriptor_bindings(&vec![reflection.clone()], None).is_err());

    let bindless = BindlessDescriptorSet { index: 2, layout: 1, set: 2 };
    assert!(validate_descriptor_bindings(&vec![reflection], Some(bindless)).is_ok());
}

/// Stages that declare one binding with different shapes cannot share a layout.
#[test]
fn stages_that_disagree_on_a_binding_are_refused() {
    let binding = DescriptorBinding {
        set: 0,
        binding: 0,
        descriptor_type: DESCRIPTOR_TYPE_COMBINED_IMAGE_SAMPLER,
        count: 1,
        variable_count: false,
        stages: STAGE_VERTEX,
        access: Access(0),
    };
    let other = DescriptorBinding { count: 2, stages: STAGE_FRAGMENT, ..binding };
    let reflections = vec![with_bindings(STAGE_VERTEX, vec![binding]), with_bindings(STAGE_FRAGMENT, vec![other])];
    assert!(validate_descriptor_bindings(&reflections, None).is_err());
}

/// A bindless set with a null handle is refused before anything else is looked at.
#[test]
fn a_bindless_set_with_a_null_handle_is_refused() {
    let bindless = BindlessDescriptorSet { index: 0, layout: 0, set: 2 };
    assert!(validate_descriptor_bindings(&Vec::new(), Some(bindless)).is_err());
}

/// Two stages that declare one binding give one binding, read by both.
#[test]
fn merged_bindings_join_the_stages_of_a_shared_binding() {
    let first = DescriptorBinding {
        set: 1,
        binding: 0,
        descriptor_type: DESCRIPTOR_TYPE_COMBINED_IMAGE_SAMPLER,
        count: 1,
        variable_count: false,
        stages: STAGE_VERTEX,
        access: Access(0),
    };
    let second = DescriptorBinding { stages: STAGE_FRAGMENT, ..first };
    let third = DescriptorBinding { set: 0, binding: 4, ..first };
    let merged = vir::pipeline::merged_bindings(&vec![first, second, third]);
    assert_eq!(merged, vec![third, DescriptorBinding { stages: STAGE_VERTEX | STAGE_FRAGMENT, ..first }]);
}
