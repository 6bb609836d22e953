use vir::access::{
    Access, ACCESS_COMPUTE_ACCELERATION_STRUCTURE_READ, ACCESS_COMPUTE_READ, ACCESS_COMPUTE_UNIFORM_READ, ACCESS_COMPUTE_WRITE,
    ACCESS_INPUT_ATTACHMENT_READ, STAGE_COMPUTE, STAGE_FRAGMENT, STAGE_VERTEX,
};
use vir::analysis::{
    DESCRIPTOR_TYPE_INPUT_ATTACHMENT, DESCRIPTOR_TYPE_SAMPLER, DESCRIPTOR_TYPE_STORAGE_BUFFER, DESCRIPTOR_TYPE_UNIFORM_BUFFER,
};
use vir::ir::DESCRIPTOR_TYPE_SAMPLED_IMAGE;
use vir::pipeline::VertexInput;
use vir::shader::{
    parse, reflect, ReflectError, DECORATION_BINDING, DECORATION_BUILT_IN, DECORATION_DESCRIPTOR_SET, DECORATION_LOCATION,
    DECORATION_NON_READABLE, DECORATION_NON_WRITABLE, DECORATION_OFFSET, DIM_SUBPASS_DATA, EXECUTION_MODE_LOCAL_SIZE,
    EXECUTION_MODE_LOCAL_SIZE_ID, FORMAT_R32G32B32_SFLOAT, FORMAT_R32G32_SFLOAT, OP_ACCESS_CHAIN, OP_CONSTANT, OP_DECORATE,
    OP_ENTRY_POINT, OP_EXECUTION_MODE, OP_EXECUTION_MODE_ID, OP_FUNCTION, OP_FUNCTION_CALL, OP_FUNCTION_END,
    OP_FUNCTION_PARAMETER, OP_IMAGE_READ, OP_IMAGE_WRITE, OP_LABEL, OP_LOAD, OP_MEMBER_DECORATE, OP_RAY_QUERY_INITIALIZE,
    OP_RETURN, OP_STORE, OP_TYPE_ACCELERATION_STRUCTURE, OP_TYPE_ARRAY, OP_TYPE_FLOAT, OP_TYPE_FUNCTION, OP_TYPE_IMAGE,
    OP_TYPE_INT, OP_TYPE_MATRIX, OP_TYPE_POINTER, OP_TYPE_RUNTIME_ARRAY, OP_TYPE_SAMPLER, OP_TYPE_STRUCT, OP_TYPE_VECTOR,
    OP_TYPE_VOID, OP_VARIABLE, SPIRV_MAGIC, STORAGE_CLASS_INPUT, STORAGE_CLASS_PUSH_CONSTANT, STORAGE_CLASS_STORAGE_BUFFER,
    STORAGE_CLASS_UNIFORM, STORAGE_CLASS_UNIFORM_CONSTANT,
};

fn inst(opcode: u32, operands: &[u32]) -> Vec<u32> {
    let mut words = vec![((operands.len() as u32 + 1) << 16) | opcode];
    words.extend_from_slice(operands);
    words
}

fn literal(text: &str) -> Vec<u32> {
    let mut bytes = text.as_bytes().to_vec();
    bytes.push(0);
    bytes.resize(bytes.len().div_ceil(4) * 4, 0);
    bytes.chunks(4).map(|c| u32::from_le_bytes([c[0], c[1], c[2], c[3]])).collect()
}

fn module() -> Vec<u32> {
    let mut words = vec![SPIRV_MAGIC, 0x0001_0300, 0, 100, 0];

    let mut entry = vec![4, 99];
    entry.extend(literal("main"));
    words.extend(inst(OP_ENTRY_POINT, &entry));

    words.extend(inst(OP_DECORATE, &[5, DECORATION_DESCRIPTOR_SET, 0]));
    words.extend(inst(OP_DECORATE, &[5, DECORATION_BINDING, 0]));
    words.extend(inst(OP_DECORATE, &[9, DECORATION_DESCRIPTOR_SET, 1]));
    words.extend(inst(OP_DECORATE, &[9, DECORATION_BINDING, 0]));
    words.extend(inst(OP_DECORATE, &[15, DECORATION_DESCRIPTOR_SET, 1]));
    words.extend(inst(OP_DECORATE, &[15, DECORATION_BINDING, 1]));
    words.extend(inst(OP_DECORATE, &[21, DECORATION_DESCRIPTOR_SET, 0]));
    words.extend(inst(OP_DECORATE, &[21, DECORATION_BINDING, 2]));
    words.extend(inst(OP_MEMBER_DECORATE, &[16, 0, DECORATION_OFFSET, 0]));
    words.extend(inst(OP_MEMBER_DECORATE, &[16, 1, DECORATION_OFFSET, 16]));

    words.extend(inst(OP_TYPE_FLOAT, &[1, 32]));
    words.extend(inst(OP_TYPE_VECTOR, &[2, 1, 4]));

    words.extend(inst(OP_TYPE_STRUCT, &[3, 2]));
    words.extend(inst(OP_TYPE_POINTER, &[4, STORAGE_CLASS_UNIFORM, 3]));
    words.extend(inst(OP_VARIABLE, &[4, 5, STORAGE_CLASS_UNIFORM]));

    words.extend(inst(OP_TYPE_IMAGE, &[6, 1, 1, 0, 0, 0, 1, 0]));
    words.extend(inst(OP_TYPE_RUNTIME_ARRAY, &[7, 6]));
    words.extend(inst(OP_TYPE_POINTER, &[8, STORAGE_CLASS_UNIFORM_CONSTANT, 7]));
    words.extend(inst(OP_VARIABLE, &[8, 9, STORAGE_CLASS_UNIFORM_CONSTANT]));

    words.extend(inst(OP_TYPE_SAMPLER, &[10]));
    words.extend(inst(OP_TYPE_INT, &[11, 32, 0]));
    words.extend(inst(OP_CONSTANT, &[11, 12, 4]));
    words.extend(inst(OP_TYPE_ARRAY, &[13, 10, 12]));
    words.extend(inst(OP_TYPE_POINTER, &[14, STORAGE_CLASS_UNIFORM_CONSTANT, 13]));
    words.extend(inst(OP_VARIABLE, &[14, 15, STORAGE_CLASS_UNIFORM_CONSTANT]));

    words.extend(inst(OP_TYPE_STRUCT, &[16, 2, 1]));
    words.extend(inst(OP_TYPE_POINTER, &[17, STORAGE_CLASS_PUSH_CONSTANT, 16]));
    words.extend(inst(OP_VARIABLE, &[17, 18, STORAGE_CLASS_PUSH_CONSTANT]));

    words.extend(inst(OP_TYPE_STRUCT, &[19, 1]));
    words.extend(inst(OP_TYPE_POINTER, &[20, STORAGE_CLASS_STORAGE_BUFFER, 19]));
    words.extend(inst(OP_VARIABLE, &[20, 21, STORAGE_CLASS_STORAGE_BUFFER]));

    words.extend(inst(OP_TYPE_POINTER, &[22, 3, 2]));
    words.extend(inst(OP_VARIABLE, &[22, 23, 3]));

    words
}

#[test]
fn reads_stage_and_entry_point() {
    let reflection = reflect(&module()).expect("module should reflect");
    assert_eq!(reflection.stage, STAGE_FRAGMENT);
    assert_eq!(reflection.entry_point, b"main".to_vec());
}

#[test]
fn reads_bindings_in_set_and_binding_order() {
    let reflection = reflect(&module()).expect("module should reflect");
    let actual: Vec<_> = reflection
        .bindings
        .iter()
        .map(|b| (b.set, b.binding, b.descriptor_type, b.count, b.variable_count))
        .collect();

    assert_eq!(
        actual,
        vec![
            (0, 0, DESCRIPTOR_TYPE_UNIFORM_BUFFER, 1, false),
            (0, 2, DESCRIPTOR_TYPE_STORAGE_BUFFER, 1, false),
            (1, 0, DESCRIPTOR_TYPE_SAMPLED_IMAGE, 1, true),
            (1, 1, DESCRIPTOR_TYPE_SAMPLER, 4, false),
        ]
    );
}

#[test]
fn sizes_push_constants_from_member_offsets() {
    let reflection = reflect(&module()).expect("module should reflect");
    assert_eq!(reflection.push_constant_offset, 0);
    assert_eq!(reflection.push_constant_size, 20);
}

#[test]
fn a_push_constant_block_that_starts_late_reports_the_offset_it_starts_at() {
    let mut words = module();
    // move the block's first member from 0 to 32, past the second one
    let member_offset = words
        .windows(5)
        .position(|w| w[0] == (5 << 16) | OP_MEMBER_DECORATE && w[1..4] == [16, 0, DECORATION_OFFSET])
        .expect("member decoration should be present");
    words[member_offset + 4] = 32;

    let reflection = reflect(&words).expect("module should reflect");
    // members at 16 and 32, the widest ending at 48
    assert_eq!(reflection.push_constant_offset, 16);
    assert_eq!(reflection.push_constant_size, 32);
}

#[test]
fn a_shader_with_no_push_constants_reports_an_empty_range() {
    let reflection = reflect(&vertex_module()).expect("module should reflect");
    assert_eq!(reflection.push_constant_offset, 0);
    assert_eq!(reflection.push_constant_size, 0);
}

#[test]
fn ignores_stage_inputs_outside_the_vertex_stage() {
    let reflection = reflect(&module()).expect("module should reflect");
    assert_eq!(reflection.stage, STAGE_FRAGMENT);
    assert!(reflection.vertex_inputs.is_empty());
}

/// A vertex module with two `Location`-decorated inputs and one builtin.
fn vertex_module() -> Vec<u32> {
    let mut words = vec![SPIRV_MAGIC, 0x0001_0300, 0, 100, 0];

    let mut entry = vec![0, 99];
    entry.extend(literal("vs_main"));
    words.extend(inst(OP_ENTRY_POINT, &entry));

    // declared out of location order, to show the result is sorted
    words.extend(inst(OP_DECORATE, &[9, DECORATION_LOCATION, 1]));
    words.extend(inst(OP_DECORATE, &[5, DECORATION_LOCATION, 0]));
    // a vertex index lands here: an `Input` variable that the driver feeds
    words.extend(inst(OP_DECORATE, &[13, DECORATION_BUILT_IN, 42]));

    words.extend(inst(OP_TYPE_FLOAT, &[1, 32]));
    words.extend(inst(OP_TYPE_VECTOR, &[2, 1, 2]));
    words.extend(inst(OP_TYPE_VECTOR, &[3, 1, 3]));
    words.extend(inst(OP_TYPE_INT, &[11, 32, 0]));

    words.extend(inst(OP_TYPE_POINTER, &[4, STORAGE_CLASS_INPUT, 2]));
    words.extend(inst(OP_VARIABLE, &[4, 5, STORAGE_CLASS_INPUT]));

    words.extend(inst(OP_TYPE_POINTER, &[8, STORAGE_CLASS_INPUT, 3]));
    words.extend(inst(OP_VARIABLE, &[8, 9, STORAGE_CLASS_INPUT]));

    words.extend(inst(OP_TYPE_POINTER, &[12, STORAGE_CLASS_INPUT, 11]));
    words.extend(inst(OP_VARIABLE, &[12, 13, STORAGE_CLASS_INPUT]));

    // an unsupported input: a 4x4 matrix spans four locations
    words.extend(inst(OP_DECORATE, &[16, DECORATION_LOCATION, 4]));
    words.extend(inst(OP_TYPE_VECTOR, &[14, 1, 4]));
    words.extend(inst(OP_TYPE_MATRIX, &[17, 14, 4]));
    words.extend(inst(OP_TYPE_POINTER, &[15, STORAGE_CLASS_INPUT, 17]));
    words.extend(inst(OP_VARIABLE, &[15, 16, STORAGE_CLASS_INPUT]));

    words
}

#[test]
fn reads_vertex_inputs_in_location_order() {
    let reflection = reflect(&vertex_module()).expect("module should reflect");
    assert_eq!(reflection.stage, STAGE_VERTEX);
    assert_eq!(
        reflection.vertex_inputs,
        vec![
            VertexInput { location: 0, format: FORMAT_R32G32_SFLOAT, size: 8 },
            VertexInput { location: 1, format: FORMAT_R32G32B32_SFLOAT, size: 12 },
        ]
    );
}

/// A compute module whose workgroup is spelled the way `[numthreads]` compiles down to.
fn compute_module(mode: u32, local_size: [u32; 3]) -> Vec<u32> {
    let mut words = vec![SPIRV_MAGIC, 0x0001_0300, 0, 100, 0];

    let mut entry = vec![5, 99];
    entry.extend(literal("cs_main"));
    words.extend(inst(OP_ENTRY_POINT, &entry));

    let operands = if mode == OP_EXECUTION_MODE_ID {
        [99, EXECUTION_MODE_LOCAL_SIZE_ID, 30, 31, 32]
    } else {
        [99, EXECUTION_MODE_LOCAL_SIZE, local_size[0], local_size[1], local_size[2]]
    };
    words.extend(inst(mode, &operands));

    words.extend(inst(OP_TYPE_INT, &[11, 32, 0]));
    for (id, axis) in [30, 31, 32].into_iter().zip(local_size) {
        words.extend(inst(OP_CONSTANT, &[11, id, axis]));
    }

    words
}

#[derive(Clone, Copy)]
enum BufferOperation {
    Nothing,
    Read,
    Write,
    ReadWrite,
    Unknown,
}

fn buffer_descriptor_module(storage_class: u32, operation: BufferOperation, member_decoration: Option<u32>) -> Vec<u32> {
    let mut words = vec![SPIRV_MAGIC, 0x0001_0300, 0, 100, 0];

    let mut entry = vec![5, 9];
    entry.extend(literal("main"));
    words.extend(inst(OP_ENTRY_POINT, &entry));
    words.extend(inst(OP_EXECUTION_MODE, &[9, EXECUTION_MODE_LOCAL_SIZE, 1, 1, 1]));
    words.extend(inst(OP_DECORATE, &[6, DECORATION_DESCRIPTOR_SET, 0]));
    words.extend(inst(OP_DECORATE, &[6, DECORATION_BINDING, 0]));
    if let Some(decoration) = member_decoration {
        words.extend(inst(OP_MEMBER_DECORATE, &[4, 0, decoration]));
    }

    words.extend(inst(OP_TYPE_VOID, &[1]));
    words.extend(inst(OP_TYPE_FUNCTION, &[2, 1]));
    words.extend(inst(OP_TYPE_INT, &[3, 32, 0]));
    words.extend(inst(OP_TYPE_STRUCT, &[4, 3]));
    words.extend(inst(OP_TYPE_POINTER, &[5, storage_class, 4]));
    words.extend(inst(OP_VARIABLE, &[5, 6, storage_class]));
    words.extend(inst(OP_TYPE_POINTER, &[7, storage_class, 3]));
    words.extend(inst(OP_CONSTANT, &[3, 8, 0]));

    words.extend(inst(OP_FUNCTION, &[1, 9, 0, 2]));
    words.extend(inst(OP_LABEL, &[20]));
    words.extend(inst(OP_ACCESS_CHAIN, &[7, 10, 6, 8]));
    if matches!(operation, BufferOperation::Read | BufferOperation::ReadWrite) {
        words.extend(inst(OP_LOAD, &[3, 11, 10]));
    }
    if matches!(operation, BufferOperation::Write | BufferOperation::ReadWrite) {
        words.extend(inst(OP_STORE, &[10, 8]));
    }
    if matches!(operation, BufferOperation::Unknown) {
        words.extend(inst(999, &[10]));
    }
    words.extend(inst(OP_RETURN, &[]));
    words.extend(inst(OP_FUNCTION_END, &[]));
    words
}

fn buffer_descriptor_through_function(call_helper: bool) -> Vec<u32> {
    let mut words = vec![SPIRV_MAGIC, 0x0001_0300, 0, 100, 0];

    let mut entry = vec![5, 9];
    entry.extend(literal("main"));
    words.extend(inst(OP_ENTRY_POINT, &entry));
    words.extend(inst(OP_EXECUTION_MODE, &[9, EXECUTION_MODE_LOCAL_SIZE, 1, 1, 1]));
    words.extend(inst(OP_DECORATE, &[6, DECORATION_DESCRIPTOR_SET, 0]));
    words.extend(inst(OP_DECORATE, &[6, DECORATION_BINDING, 0]));

    words.extend(inst(OP_TYPE_VOID, &[1]));
    words.extend(inst(OP_TYPE_FUNCTION, &[2, 1]));
    words.extend(inst(OP_TYPE_INT, &[3, 32, 0]));
    words.extend(inst(OP_TYPE_STRUCT, &[4, 3]));
    words.extend(inst(OP_TYPE_POINTER, &[5, STORAGE_CLASS_STORAGE_BUFFER, 4]));
    words.extend(inst(OP_VARIABLE, &[5, 6, STORAGE_CLASS_STORAGE_BUFFER]));
    words.extend(inst(OP_TYPE_POINTER, &[7, STORAGE_CLASS_STORAGE_BUFFER, 3]));
    words.extend(inst(OP_CONSTANT, &[3, 8, 0]));
    words.extend(inst(OP_TYPE_FUNCTION, &[13, 1, 7]));

    words.extend(inst(OP_FUNCTION, &[1, 9, 0, 2]));
    words.extend(inst(OP_LABEL, &[20]));
    if call_helper {
        words.extend(inst(OP_ACCESS_CHAIN, &[7, 10, 6, 8]));
        words.extend(inst(OP_FUNCTION_CALL, &[1, 11, 12, 10]));
    }
    words.extend(inst(OP_RETURN, &[]));
    words.extend(inst(OP_FUNCTION_END, &[]));

    words.extend(inst(OP_FUNCTION, &[1, 12, 0, 13]));
    words.extend(inst(OP_FUNCTION_PARAMETER, &[7, 14]));
    words.extend(inst(OP_LABEL, &[21]));
    words.extend(inst(OP_STORE, &[14, 8]));
    words.extend(inst(OP_RETURN, &[]));
    words.extend(inst(OP_FUNCTION_END, &[]));
    words
}

#[derive(Clone, Copy)]
enum ImageOperation {
    Nothing,
    Read,
    Write,
}

fn image_descriptor_module(execution_model: u32, image_dim: u32, sampled: u32, operation: ImageOperation) -> Vec<u32> {
    let mut words = vec![SPIRV_MAGIC, 0x0001_0300, 0, 100, 0];

    let mut entry = vec![execution_model, 9];
    entry.extend(literal("main"));
    words.extend(inst(OP_ENTRY_POINT, &entry));
    if execution_model == 5 {
        words.extend(inst(OP_EXECUTION_MODE, &[9, EXECUTION_MODE_LOCAL_SIZE, 1, 1, 1]));
    }
    words.extend(inst(OP_DECORATE, &[6, DECORATION_DESCRIPTOR_SET, 0]));
    words.extend(inst(OP_DECORATE, &[6, DECORATION_BINDING, 0]));

    words.extend(inst(OP_TYPE_VOID, &[1]));
    words.extend(inst(OP_TYPE_FUNCTION, &[2, 1]));
    words.extend(inst(OP_TYPE_FLOAT, &[3, 32]));
    words.extend(inst(OP_TYPE_IMAGE, &[4, 3, image_dim, 0, 0, 0, sampled, 0]));
    words.extend(inst(OP_TYPE_POINTER, &[5, STORAGE_CLASS_UNIFORM_CONSTANT, 4]));
    words.extend(inst(OP_VARIABLE, &[5, 6, STORAGE_CLASS_UNIFORM_CONSTANT]));
    words.extend(inst(OP_CONSTANT, &[3, 8, 0]));

    words.extend(inst(OP_FUNCTION, &[1, 9, 0, 2]));
    words.extend(inst(OP_LABEL, &[20]));
    words.extend(inst(OP_LOAD, &[4, 10, 6]));
    match operation {
        ImageOperation::Nothing => {},
        ImageOperation::Read => words.extend(inst(OP_IMAGE_READ, &[3, 11, 10, 8])),
        ImageOperation::Write => words.extend(inst(OP_IMAGE_WRITE, &[10, 8, 8])),
    }
    words.extend(inst(OP_RETURN, &[]));
    words.extend(inst(OP_FUNCTION_END, &[]));
    words
}

fn acceleration_structure_module() -> Vec<u32> {
    let mut words = vec![SPIRV_MAGIC, 0x0001_0300, 0, 100, 0];

    let mut entry = vec![5, 9];
    entry.extend(literal("main"));
    words.extend(inst(OP_ENTRY_POINT, &entry));
    words.extend(inst(OP_EXECUTION_MODE, &[9, EXECUTION_MODE_LOCAL_SIZE, 1, 1, 1]));
    words.extend(inst(OP_DECORATE, &[6, DECORATION_DESCRIPTOR_SET, 0]));
    words.extend(inst(OP_DECORATE, &[6, DECORATION_BINDING, 0]));

    words.extend(inst(OP_TYPE_VOID, &[1]));
    words.extend(inst(OP_TYPE_FUNCTION, &[2, 1]));
    words.extend(inst(OP_TYPE_ACCELERATION_STRUCTURE, &[4]));
    words.extend(inst(OP_TYPE_POINTER, &[5, STORAGE_CLASS_UNIFORM_CONSTANT, 4]));
    words.extend(inst(OP_VARIABLE, &[5, 6, STORAGE_CLASS_UNIFORM_CONSTANT]));

    words.extend(inst(OP_FUNCTION, &[1, 9, 0, 2]));
    words.extend(inst(OP_LABEL, &[20]));
    words.extend(inst(OP_LOAD, &[4, 10, 6]));
    words.extend(inst(OP_RAY_QUERY_INITIALIZE, &[30, 10, 31, 32, 33, 34, 35, 36]));
    words.extend(inst(OP_RETURN, &[]));
    words.extend(inst(OP_FUNCTION_END, &[]));
    words
}

fn only_binding_access(module: &[u32]) -> Access {
    let reflection = reflect(module).expect("module should reflect");
    assert_eq!(reflection.bindings.len(), 1);
    assert_eq!(reflection.bindings[0].stages, STAGE_COMPUTE);
    reflection.bindings[0].access
}

#[test]
fn a_compute_uniform_buffer_read_has_uniform_access_at_compute() {
    assert_eq!(
        only_binding_access(&buffer_descriptor_module(STORAGE_CLASS_UNIFORM, BufferOperation::Read, None)),
        Access(ACCESS_COMPUTE_UNIFORM_READ)
    );
}

#[test]
fn compute_storage_buffer_access_distinguishes_reads_and_writes() {
    assert_eq!(
        only_binding_access(&buffer_descriptor_module(STORAGE_CLASS_STORAGE_BUFFER, BufferOperation::Read, None)),
        Access(ACCESS_COMPUTE_READ)
    );
    assert_eq!(
        only_binding_access(&buffer_descriptor_module(STORAGE_CLASS_STORAGE_BUFFER, BufferOperation::Write, None)),
        Access(ACCESS_COMPUTE_WRITE)
    );
    assert_eq!(
        only_binding_access(&buffer_descriptor_module(STORAGE_CLASS_STORAGE_BUFFER, BufferOperation::ReadWrite, None)),
        Access(ACCESS_COMPUTE_READ | ACCESS_COMPUTE_WRITE)
    );
}

#[test]
fn compute_storage_images_distinguish_reads_and_writes() {
    assert_eq!(
        only_binding_access(&image_descriptor_module(5, 1, 2, ImageOperation::Read)),
        Access(ACCESS_COMPUTE_READ)
    );
    assert_eq!(
        only_binding_access(&image_descriptor_module(5, 1, 2, ImageOperation::Write)),
        Access(ACCESS_COMPUTE_WRITE)
    );
}

#[test]
fn loading_an_image_handle_alone_does_not_access_the_image() {
    assert_eq!(only_binding_access(&image_descriptor_module(5, 1, 1, ImageOperation::Nothing)), Access(0));
}

#[test]
fn a_compute_acceleration_structure_query_has_stage_specific_access() {
    assert_eq!(
        only_binding_access(&acceleration_structure_module()),
        Access(ACCESS_COMPUTE_ACCELERATION_STRUCTURE_READ)
    );
}

#[test]
fn a_fragment_subpass_read_has_input_attachment_access() {
    let reflection =
        reflect(&image_descriptor_module(4, DIM_SUBPASS_DATA, 2, ImageOperation::Read)).expect("module should reflect");
    assert_eq!(reflection.bindings[0].descriptor_type, DESCRIPTOR_TYPE_INPUT_ATTACHMENT);
    assert_eq!(reflection.bindings[0].access, Access(ACCESS_INPUT_ATTACHMENT_READ));
}

#[test]
fn declaring_or_aliasing_a_descriptor_does_not_access_it() {
    assert_eq!(
        only_binding_access(&buffer_descriptor_module(STORAGE_CLASS_STORAGE_BUFFER, BufferOperation::Nothing, None)),
        Access(0)
    );
}

#[test]
fn descriptor_access_follows_the_static_function_call_tree() {
    assert_eq!(only_binding_access(&buffer_descriptor_through_function(true)), Access(ACCESS_COMPUTE_WRITE));
    assert_eq!(only_binding_access(&buffer_descriptor_through_function(false)), Access(0));
}

#[test]
fn descriptor_operations_must_respect_member_access_decorations() {
    assert!(reflect(&buffer_descriptor_module(
        STORAGE_CLASS_STORAGE_BUFFER,
        BufferOperation::Write,
        Some(DECORATION_NON_WRITABLE),
    ))
    .is_err());
    assert!(reflect(&buffer_descriptor_module(
        STORAGE_CLASS_STORAGE_BUFFER,
        BufferOperation::Read,
        Some(DECORATION_NON_READABLE),
    ))
    .is_err());
}

#[test]
fn rejects_an_unknown_instruction_that_touches_a_descriptor() {
    assert!(reflect(&buffer_descriptor_module(STORAGE_CLASS_STORAGE_BUFFER, BufferOperation::Unknown, None)).is_err());
}

#[test]
fn reads_the_workgroup_a_compute_shader_declares() {
    let reflection = reflect(&compute_module(OP_EXECUTION_MODE, [64, 2, 1])).expect("module should reflect");
    assert_eq!(reflection.stage, STAGE_COMPUTE);
    assert_eq!(reflection.local_size, [64, 2, 1]);
}

#[test]
fn reads_a_workgroup_that_names_constants_rather_than_literals() {
    let reflection = reflect(&compute_module(OP_EXECUTION_MODE_ID, [8, 8, 4])).expect("module should reflect");
    assert_eq!(reflection.local_size, [8, 8, 4]);
}

#[test]
fn a_stage_with_no_workgroup_reports_one_invocation() {
    let reflection = reflect(&vertex_module()).expect("module should reflect");
    assert_eq!(reflection.local_size, [1, 1, 1]);
}

#[test]
fn rejects_a_module_that_is_not_spirv() {
    assert!(reflect(&[0, 1, 2, 3, 4]).is_err());
}

#[test]
fn rejects_a_module_with_no_entry_point() {
    let mut words = module();
    let entry_len = 3 + literal("main").len();
    words.splice(5..5 + entry_len, std::iter::empty());
    assert!(reflect(&words).is_err());
}

#[test]
fn each_refusal_names_its_reason() {
    assert_eq!(reflect(&[0, 1, 2, 3, 4]).unwrap_err(), ReflectError::Malformed);

    let mut no_entry = module();
    let entry_len = 3 + literal("main").len();
    no_entry.splice(5..5 + entry_len, std::iter::empty());
    assert_eq!(reflect(&no_entry).unwrap_err(), ReflectError::EntryPointCount);

    let mut two_entries = module();
    let mut entry = vec![4, 98];
    entry.extend(literal("other"));
    two_entries.extend(inst(OP_ENTRY_POINT, &entry));
    assert_eq!(reflect(&two_entries).unwrap_err(), ReflectError::EntryPointCount);

    let mut kernel = module();
    kernel[6] = 6;
    assert_eq!(reflect(&kernel).unwrap_err(), ReflectError::UnsupportedExecutionModel);

    assert_eq!(
        reflect(&buffer_descriptor_module(STORAGE_CLASS_STORAGE_BUFFER, BufferOperation::Unknown, None)).unwrap_err(),
        ReflectError::DescriptorMisuse
    );
}

#[test]
fn a_module_whose_words_do_not_split_into_instructions_is_refused() {
    let mut overrun = module();
    overrun.extend(inst(OP_TYPE_VOID, &[30]));
    let last = overrun.len() - 2;
    overrun[last] = (9 << 16) | OP_TYPE_VOID;
    assert!(parse(&overrun).is_none());

    let mut empty = module();
    empty.push(OP_TYPE_VOID);
    assert!(parse(&empty).is_none());

    let mut unterminated = vec![SPIRV_MAGIC, 0x0001_0300, 0, 100, 0];
    unterminated.extend(inst(OP_ENTRY_POINT, &[4, 99, u32::from_le_bytes(*b"main")]));
    assert!(parse(&unterminated).is_none());

    let mut nested = vec![SPIRV_MAGIC, 0x0001_0300, 0, 100, 0];
    nested.extend(inst(OP_FUNCTION, &[1, 9, 0, 2]));
    nested.extend(inst(OP_FUNCTION, &[1, 10, 0, 2]));
    assert!(parse(&nested).is_none());

    let mut open = vec![SPIRV_MAGIC, 0x0001_0300, 0, 100, 0];
    open.extend(inst(OP_FUNCTION, &[1, 9, 0, 2]));
    assert!(parse(&open).is_none());
    open.extend(inst(OP_FUNCTION_END, &[]));
    assert!(parse(&open).is_some());
}
