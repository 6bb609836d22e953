use vir::access::{Access, ACCESS_COMPUTE_READ, ACCESS_COMPUTE_WRITE, ACCESS_FRAGMENT_SAMPLED, ACCESS_PRESENT, ACCESS_VERTEX_SAMPLED};
use vir::dump::Symbols;
use vir::ids::{LabelId, PipelineId, ValueId, INVALID_ID};
use vir::ir::{Constant, Descriptor, DispatchSize, SideEffectAccess, IR};
use vir::resource::{Buffer, MemoryLocation};
use vir::state::PushConstants;

/// Vulkan's raw `LINEAR` filter and `UINT32` index type.
const FILTER_LINEAR: i32 = 1;
const INDEX_TYPE_UINT32: i32 = 1;

fn value(id: u32) -> ValueId {
    ValueId(id)
}

fn named_access(id: ValueId) -> Access {
    match id.0 {
        10 => Access(ACCESS_FRAGMENT_SAMPLED),
        11 => Access(ACCESS_COMPUTE_READ),
        12 => Access(ACCESS_COMPUTE_WRITE),
        13 => Access(ACCESS_VERTEX_SAMPLED),
        _ => panic!("{id:?} does not name a test access"),
    }
}

fn naming() -> Vec<IR> {
    vec![
        IR::Clear { attachment: value(1), color: value(2) },
        IR::Blit { src: value(1), dst: value(2), filter: FILTER_LINEAR },
        IR::CopyBufferToImage { buffer: value(1), image: value(2), region: None },
        IR::BeginRendering { attachments: vec![(value(1), value(10)), (value(2), value(13))], render_area: ValueId(INVALID_ID), name: ValueId(INVALID_ID) },
        IR::BeginRendering { attachments: vec![(value(2), value(10))], render_area: ValueId(INVALID_ID), name: ValueId(INVALID_ID) },
        IR::BeginCompute { attachments: vec![(value(1), value(11))], name: ValueId(INVALID_ID) },
        IR::BeginCompute { attachments: vec![(value(1), value(11)), (value(2), value(12))], name: ValueId(INVALID_ID) },
        IR::WriteDescriptor {
            pass: value(0),
            set: 0,
            binding: 0,
            descriptor: Descriptor::SampledImage { image: value(1) },
            access: value(13),
        },
        IR::BindIndexBuffer { pass: value(0), buffer: value(1), offset: 0, index_type: INDEX_TYPE_UINT32 },
        IR::Dispatch {
            pass: value(0),
            size: DispatchSize::Indirect { buffer: value(1), offset: 0 },
            pipeline: PipelineId(INVALID_ID),
            push_constants: PushConstants::default(),
        },
    ]
}

#[test]
fn read_and_write_match_the_resources_named() {
    for ir in naming() {
        let effects = ir.side_effects();
        let accesses = ir
            .resource_effects()
            .into_iter()
            .map(|effect| match effect.access {
                SideEffectAccess::Fixed(access) => access,
                SideEffectAccess::Operand(id) => named_access(id),
            })
            .collect::<Vec<_>>();

        assert!(!accesses.is_empty(), "{ir:?} names no resource");
        assert!(!accesses.iter().any(|access| access.reads()) || effects.reads(), "{ir:?} is missing its read effect");
        assert!(!accesses.iter().any(|access| access.writes()) || effects.writes(), "{ir:?} is missing its write effect");
    }
}

#[test]
fn instructions_that_touch_resources_are_kept() {
    for ir in naming() {
        assert!(!ir.is_removable_when_unused(), "{ir:?} would be dropped when unused");
    }
}

#[test]
fn values_are_pure_and_resources_are_only_dead_without_uses() {
    assert!(IR::Constant(Constant::U32(0)).is_pure());
    assert!(IR::Index { array: value(1), index: value(2) }.is_pure());

    let buffer = IR::ConstructBuffer {
        buffer: Buffer::default(),
        size: ValueId(INVALID_ID),
        usage: 0,
        location: MemoryLocation::GpuOnly,
        initial_access: value(1),
        name: ValueId(INVALID_ID),
    };
    assert!(!buffer.is_pure(), "a construct is an identity of its own");
    assert!(buffer.is_removable_when_unused());
}

#[test]
fn lowered_accesses_are_visited_as_operands() {
    let access = value(7);
    let instructions = [
        IR::ConstructBuffer {
            buffer: Buffer::default(),
            size: ValueId(INVALID_ID),
            usage: 0,
            location: MemoryLocation::GpuOnly,
            initial_access: access,
            name: ValueId(INVALID_ID),
        },
        IR::BeginRendering { attachments: vec![(value(1), access)], render_area: ValueId(INVALID_ID), name: ValueId(INVALID_ID) },
        IR::BeginCompute { attachments: vec![(value(1), access)], name: ValueId(INVALID_ID) },
        IR::WriteDescriptor {
            pass: value(0),
            set: 0,
            binding: 0,
            descriptor: Descriptor::SampledImage { image: value(1) },
            access,
        },
    ];

    for ir in instructions {
        let operands = ir.visit_operands();
        assert!(operands.contains(&access), "{ir:?} does not visit its access operand");
        assert!(!operands.contains(&ValueId(INVALID_ID)), "{ir:?} visits its invalid name operand");
    }
}

#[test]
fn an_operand_access_resolves_through_the_symbols() {
    let instructions = vec![
        (value(0), IR::Constant(Constant::Access(Access(ACCESS_PRESENT)))),
        (value(1), IR::Release { resource: value(2), access: value(0), dst_domain: 0 }),
    ];
    let symbols = Symbols::new(&instructions);

    let effects = instructions[1].1.resource_effects();
    assert_eq!(effects.len(), 1);
    assert_eq!(effects[0].resource, value(2));
    assert_eq!(effects[0].access, SideEffectAccess::Operand(value(0)));
    assert_eq!(symbols.side_effect_access(&effects[0]), Some(Access(ACCESS_PRESENT)));
}

#[test]
fn terminators_end_their_block() {
    assert!(IR::Return.is_terminator());
    assert!(IR::Branch { target: LabelId(1) }.is_terminator());
    assert!(!IR::Label { label: LabelId(1) }.is_terminator());
}
