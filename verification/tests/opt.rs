use vir::access::{Access, ACCESS_ATTRIBUTE_READ, ACCESS_BLIT_READ, ACCESS_COLOR_READ, ACCESS_COLOR_WRITE, ACCESS_HOST_WRITE, ACCESS_INDEX_READ, DOMAIN_GRAPHICS};
use vir::analysis::Unchecked;
use vir::compile::CompileError;
use vir::sync::sync;
use vir::ids::{LabelId, PipelineId, ValueId};
use vir::ir::{Constant, IR};
use vir::module::Module;
use vir::program::Program;
use vir::resource::{Extent2D, ImageInfo};

const FORMAT: i32 = 43;
const INDEX_TYPE_UINT32: i32 = 1;
const COLOR_RW: Access = Access(ACCESS_COLOR_READ | ACCESS_COLOR_WRITE);

fn transient_target(module: &mut Module) -> ValueId {
    module.transient_image(&ImageInfo::color_target(Extent2D { width: 64, height: 64 }, FORMAT))
}

fn draw_into(module: &mut Module, target: ValueId) -> ValueId {
    module.begin_rendering(&[(target, COLOR_RW)]);
    module.bind_graphics_pipeline(PipelineId(0));
    module.draw(3u32, 1u32);
    module.end_rendering()
}

fn compile(module: &Module, end: ValueId) -> Program {
    assert!(module.is_compilable(&[end]));
    module.compile(&Unchecked, end).unwrap()
}

fn labels(program: &Program) -> Vec<LabelId> {
    program
        .instructions()
        .iter()
        .filter_map(|(_, ir)| match ir {
            IR::Label { label } => Some(*label),
            _ => None,
        })
        .collect()
}

fn conditional(program: &Program) -> Option<(LabelId, LabelId)> {
    program.instructions().iter().find_map(|(_, ir)| match ir {
        IR::BranchConditional { true_label, false_label, .. } => Some((*true_label, *false_label)),
        _ => None,
    })
}

fn phi(program: &Program) -> Vec<(ValueId, LabelId)> {
    program
        .instructions()
        .iter()
        .find_map(|(_, ir)| match ir {
            IR::Phi { incoming } => Some(incoming.clone()),
            _ => None,
        })
        .unwrap_or_default()
}

fn memory_barriers(program: &Program) -> Vec<(Access, Access)> {
    let access = |id: &ValueId| {
        program
            .instructions()
            .iter()
            .find_map(|(instr, ir)| match ir {
                IR::Constant(Constant::Access(a)) if instr == id => Some(*a),
                _ => None,
            })
            .expect("a barrier names an access constant")
    };
    program
        .instructions()
        .iter()
        .filter_map(|(_, ir)| match ir {
            IR::MemoryBarrier { src_access, dst_access } => Some((access(src_access), access(dst_access))),
            _ => None,
        })
        .collect()
}

#[test]
fn an_arm_with_no_work_left_in_it_is_threaded_to_the_merge() {
    let mut module = Module::new();
    let target = transient_target(&mut module);
    let enabled = module.declare_bool_var("enabled", true);

    // the first pass leaves the target where a second pass over it wants it, so the arm that
    // skips the second pass is not asked to bring it anywhere
    let drawn = draw_into(&mut module, target);
    let selection = module.set_condition(enabled);
    let taken = draw_into(&mut module, drawn);
    let selection = module.otherwise(selection, taken);
    let maybe = module.end_condition(selection, drawn);
    let end = module.release(maybe, Access(ACCESS_BLIT_READ), DOMAIN_GRAPHICS);

    let compiled = compile(&module, end);
    let dump = compiled.dump();

    let (taken, skipped) = conditional(&compiled).expect("the selection branches");
    let merge = *labels(&compiled).last().expect("the merge is laid out last");
    assert_eq!(skipped, merge, "the empty arm should branch straight to the merge\n{dump}");
    assert_ne!(taken, merge, "the arm holding the draw should keep its block\n{dump}");
    assert_eq!(labels(&compiled).len(), 3, "the empty arm should be gone\n{dump}");

    // the value the merge picks for that edge now arrives from the block that branched
    let entry = labels(&compiled)[0];
    let incoming = phi(&compiled);
    assert!(incoming.iter().any(|(value, label)| *value == drawn && *label == entry), "{incoming:?}\n{dump}");
}

#[test]
fn an_arm_holding_a_barrier_keeps_its_block() {
    let mut module = Module::new();
    let target = transient_target(&mut module);
    let enabled = module.declare_bool_var("enabled", true);

    let selection = module.set_condition(enabled);
    let taken = draw_into(&mut module, target);
    let selection = module.otherwise(selection, taken);
    let drawn = module.end_condition(selection, target);
    let end = module.release(drawn, Access(ACCESS_BLIT_READ), DOMAIN_GRAPHICS);

    let compiled = compile(&module, end);
    let dump = compiled.dump();

    let (taken, skipped) = conditional(&compiled).expect("the selection branches");
    let merge = *labels(&compiled).last().expect("the merge is laid out last");
    assert_ne!(skipped, merge, "the arm has a barrier to record\n{dump}");
    assert_ne!(taken, skipped);
    assert_eq!(labels(&compiled).len(), 4, "{dump}");
}

#[test]
fn a_selection_whose_arms_both_do_nothing_folds_away() {
    let mut module = Module::new();
    let target = transient_target(&mut module);
    let enabled = module.declare_bool_var("enabled", true);

    let drawn = draw_into(&mut module, target);
    let selection = module.set_condition(enabled);
    let selection = module.otherwise(selection, drawn);
    let maybe = module.end_condition(selection, drawn);
    let end = module.release(maybe, Access(ACCESS_BLIT_READ), DOMAIN_GRAPHICS);

    let compiled = compile(&module, end);
    let dump = compiled.dump();

    assert!(conditional(&compiled).is_none(), "the branch has one way to go\n{dump}");
    assert!(
        !compiled.instructions().iter().any(|(_, ir)| matches!(ir, IR::SelectionMerge { .. })),
        "the merge outlived the selection\n{dump}"
    );
    assert_eq!(labels(&compiled).len(), 2, "{dump}");
    assert_eq!(phi(&compiled).len(), 1, "the arms agree, so one incoming says it\n{dump}");
}

#[test]
fn arms_that_disagree_on_what_they_carry_keep_an_edge_each() {
    let mut module = Module::new();
    let first = transient_target(&mut module);
    let second = transient_target(&mut module);
    let enabled = module.declare_bool_var("enabled", true);

    let selection = module.set_condition(enabled);
    let selection = module.otherwise(selection, first);
    let chosen = module.end_condition(selection, second);
    let end = module.release(chosen, Access(ACCESS_BLIT_READ), DOMAIN_GRAPHICS);

    let compiled = compile(&module, end);
    let dump = compiled.dump();

    let (taken, skipped) = conditional(&compiled).expect("the selection branches");
    assert_ne!(taken, skipped, "the merge could no longer tell the arms apart\n{dump}");
    assert_eq!(phi(&compiled).len(), 2, "{dump}");
}

#[test]
fn barriers_from_the_same_source_are_asked_for_once() {
    let mut module = Module::new();
    let target = transient_target(&mut module);
    let vertices = module.declare_buffer_var("vertices", Access(ACCESS_HOST_WRITE));
    let indices = module.declare_buffer_var("indices", Access(ACCESS_HOST_WRITE));

    module.begin_rendering(&[(target, COLOR_RW)]);
    module.bind_graphics_pipeline(PipelineId(0));
    module.bind_vertex_buffer(0, vertices);
    module.bind_index_buffer(indices, INDEX_TYPE_UINT32);
    module.draw(3u32, 1u32);
    let drawn = module.end_rendering();
    let end = module.release(drawn, Access(ACCESS_BLIT_READ), DOMAIN_GRAPHICS);

    let compiled = compile(&module, end);
    assert_eq!(
        memory_barriers(&compiled),
        vec![(Access(ACCESS_HOST_WRITE), Access(ACCESS_ATTRIBUTE_READ | ACCESS_INDEX_READ))],
        "{}",
        compiled.dump()
    );
}

#[test]
fn barriers_a_pass_sits_between_stay_apart() {
    let mut module = Module::new();
    let target = transient_target(&mut module);
    let vertices = module.declare_buffer_var("vertices", Access(ACCESS_HOST_WRITE));
    let indices = module.declare_buffer_var("indices", Access(ACCESS_HOST_WRITE));

    module.begin_rendering(&[(target, COLOR_RW)]);
    module.bind_graphics_pipeline(PipelineId(0));
    module.bind_vertex_buffer(0, vertices);
    module.draw(3u32, 1u32);
    let first = module.end_rendering();
    module.begin_rendering(&[(first, COLOR_RW)]);
    module.bind_graphics_pipeline(PipelineId(0));
    module.bind_index_buffer(indices, INDEX_TYPE_UINT32);
    module.draw(3u32, 1u32);
    let second = module.end_rendering();
    let end = module.release(second, Access(ACCESS_BLIT_READ), DOMAIN_GRAPHICS);

    let compiled = compile(&module, end);
    assert_eq!(
        memory_barriers(&compiled),
        vec![
            (Access(ACCESS_HOST_WRITE), Access(ACCESS_ATTRIBUTE_READ)),
            (Access(ACCESS_HOST_WRITE), Access(ACCESS_INDEX_READ)),
        ],
        "{}",
        compiled.dump()
    );
}

#[test]
fn an_acquire_at_an_access_no_constant_holds_is_a_missing_access() {
    let nodes = vec![(ValueId(0), IR::Acquire { resource: ValueId(5), access: ValueId(9) })];
    let instrs: Vec<IR> = Vec::new();
    assert!(matches!(sync(&instrs, nodes, 1), Err(CompileError::MissingAccess)));
}

