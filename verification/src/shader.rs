use vstd::prelude::*;

use crate::access::{
    acceleration_structure_read_by_spec, sampled_by_spec, shader_read_by_spec, shader_write_by_spec, uniform_by_spec, Access,
    ACCESS_INPUT_ATTACHMENT_READ, STAGE_COMPUTE, STAGE_FRAGMENT, STAGE_VERTEX,
};
use crate::analysis::{
    DescriptorBinding, DESCRIPTOR_TYPE_ACCELERATION_STRUCTURE, DESCRIPTOR_TYPE_INPUT_ATTACHMENT, DESCRIPTOR_TYPE_SAMPLER,
    DESCRIPTOR_TYPE_STORAGE_BUFFER, DESCRIPTOR_TYPE_STORAGE_IMAGE, DESCRIPTOR_TYPE_STORAGE_TEXEL_BUFFER,
    DESCRIPTOR_TYPE_UNIFORM_BUFFER, DESCRIPTOR_TYPE_UNIFORM_TEXEL_BUFFER,
};
use crate::ir::{DESCRIPTOR_TYPE_COMBINED_IMAGE_SAMPLER, DESCRIPTOR_TYPE_SAMPLED_IMAGE};
use crate::pipeline::{Reflection, VertexInput};

verus! {

/// The first word of every SPIR-V module.
pub const SPIRV_MAGIC: u32 = 0x0723_0203;

/// The words of the header, before the first instruction.
pub const HEADER_WORDS: usize = 5;

/// The SPIR-V opcodes reflection reads.
pub const OP_NOP: u32 = 0;
pub const OP_LINE: u32 = 8;
pub const OP_EXT_INST: u32 = 12;
pub const OP_ENTRY_POINT: u32 = 15;
pub const OP_EXECUTION_MODE: u32 = 16;
pub const OP_TYPE_VOID: u32 = 19;
pub const OP_TYPE_BOOL: u32 = 20;
pub const OP_TYPE_INT: u32 = 21;
pub const OP_TYPE_FLOAT: u32 = 22;
pub const OP_TYPE_VECTOR: u32 = 23;
pub const OP_TYPE_MATRIX: u32 = 24;
pub const OP_TYPE_IMAGE: u32 = 25;
pub const OP_TYPE_SAMPLER: u32 = 26;
pub const OP_TYPE_SAMPLED_IMAGE: u32 = 27;
pub const OP_TYPE_ARRAY: u32 = 28;
pub const OP_TYPE_RUNTIME_ARRAY: u32 = 29;
pub const OP_TYPE_STRUCT: u32 = 30;
pub const OP_TYPE_POINTER: u32 = 32;
pub const OP_TYPE_FUNCTION: u32 = 33;
pub const OP_CONSTANT: u32 = 43;
pub const OP_FUNCTION: u32 = 54;
pub const OP_FUNCTION_PARAMETER: u32 = 55;
pub const OP_FUNCTION_END: u32 = 56;
pub const OP_FUNCTION_CALL: u32 = 57;
pub const OP_VARIABLE: u32 = 59;
pub const OP_IMAGE_TEXEL_POINTER: u32 = 60;
pub const OP_LOAD: u32 = 61;
pub const OP_STORE: u32 = 62;
pub const OP_COPY_MEMORY: u32 = 63;
pub const OP_COPY_MEMORY_SIZED: u32 = 64;
pub const OP_ACCESS_CHAIN: u32 = 65;
pub const OP_IN_BOUNDS_ACCESS_CHAIN: u32 = 66;
pub const OP_PTR_ACCESS_CHAIN: u32 = 67;
pub const OP_ARRAY_LENGTH: u32 = 68;
pub const OP_IN_BOUNDS_PTR_ACCESS_CHAIN: u32 = 70;
pub const OP_DECORATE: u32 = 71;
pub const OP_MEMBER_DECORATE: u32 = 72;
pub const OP_VECTOR_EXTRACT_DYNAMIC: u32 = 77;
pub const OP_COMPOSITE_INSERT: u32 = 82;
pub const OP_COPY_OBJECT: u32 = 83;
pub const OP_TRANSPOSE: u32 = 84;
pub const OP_SAMPLED_IMAGE: u32 = 86;
pub const OP_IMAGE_SAMPLE_FIRST: u32 = 87;
pub const OP_IMAGE_READ: u32 = 98;
pub const OP_IMAGE_WRITE: u32 = 99;
pub const OP_IMAGE: u32 = 100;
pub const OP_IMAGE_QUERY_FORMAT: u32 = 101;
pub const OP_IMAGE_QUERY_SAMPLES: u32 = 107;
pub const OP_BITCAST: u32 = 124;
pub const OP_SELECT: u32 = 169;
pub const OP_ATOMIC_LOAD: u32 = 227;
pub const OP_ATOMIC_STORE: u32 = 228;
pub const OP_ATOMIC_RMW_FIRST: u32 = 229;
pub const OP_ATOMIC_RMW_LAST: u32 = 242;
pub const OP_PHI: u32 = 245;
pub const OP_LOOP_MERGE: u32 = 246;
pub const OP_SELECTION_MERGE: u32 = 247;
pub const OP_LABEL: u32 = 248;
pub const OP_BRANCH: u32 = 249;
pub const OP_BRANCH_CONDITIONAL: u32 = 250;
pub const OP_SWITCH: u32 = 251;
pub const OP_KILL: u32 = 252;
pub const OP_RETURN: u32 = 253;
pub const OP_RETURN_VALUE: u32 = 254;
pub const OP_UNREACHABLE: u32 = 255;
pub const OP_IMAGE_SPARSE_SAMPLE_FIRST: u32 = 305;
pub const OP_IMAGE_SPARSE_DREF_GATHER: u32 = 315;
pub const OP_NO_LINE: u32 = 317;
pub const OP_ATOMIC_FLAG_TEST_AND_SET: u32 = 318;
pub const OP_ATOMIC_FLAG_CLEAR: u32 = 319;
pub const OP_IMAGE_SPARSE_READ: u32 = 320;
pub const OP_EXECUTION_MODE_ID: u32 = 331;
pub const OP_COPY_LOGICAL: u32 = 400;
pub const OP_TRACE_RAY: u32 = 4445;
pub const OP_RAY_QUERY_INITIALIZE: u32 = 4473;
pub const OP_IMAGE_SAMPLE_FOOTPRINT: u32 = 5283;
pub const OP_TYPE_ACCELERATION_STRUCTURE: u32 = 5341;
pub const OP_ATOMIC_FMIN: u32 = 5614;
pub const OP_ATOMIC_FMAX: u32 = 5615;
pub const OP_ATOMIC_FADD: u32 = 6035;

/// The execution modes that declare a compute workgroup.
pub const EXECUTION_MODE_LOCAL_SIZE: u32 = 17;
pub const EXECUTION_MODE_LOCAL_SIZE_ID: u32 = 38;

/// The decorations reflection reads.
pub const DECORATION_BUFFER_BLOCK: u32 = 3;
pub const DECORATION_ARRAY_STRIDE: u32 = 6;
pub const DECORATION_MATRIX_STRIDE: u32 = 7;
pub const DECORATION_BUILT_IN: u32 = 11;
pub const DECORATION_NON_WRITABLE: u32 = 24;
pub const DECORATION_NON_READABLE: u32 = 25;
pub const DECORATION_LOCATION: u32 = 30;
pub const DECORATION_BINDING: u32 = 33;
pub const DECORATION_DESCRIPTOR_SET: u32 = 34;
pub const DECORATION_OFFSET: u32 = 35;

/// The storage classes reflection reads.
pub const STORAGE_CLASS_UNIFORM_CONSTANT: u32 = 0;
pub const STORAGE_CLASS_INPUT: u32 = 1;
pub const STORAGE_CLASS_UNIFORM: u32 = 2;
pub const STORAGE_CLASS_PUSH_CONSTANT: u32 = 9;
pub const STORAGE_CLASS_STORAGE_BUFFER: u32 = 12;

/// The image dimensionalities that are not images one samples.
pub const DIM_BUFFER: u32 = 5;
pub const DIM_SUBPASS_DATA: u32 = 6;

/// One instruction as the module spells it: its opcode and the words after the first.
pub type Inst = (u32, Seq<u32>);

/// The opcode of the instruction whose first word is `word`.
pub open spec fn opcode_of(word: u32) -> u32 {
    word & 0xffff
}

/// How many words the instruction whose first word is `word` spans.
pub open spec fn word_count_of(word: u32) -> int {
    (word >> 16u32) as int
}

/// The instruction that starts at `cursor`.
pub open spec fn inst_at(words: Seq<u32>, cursor: int) -> Inst {
    (opcode_of(words[cursor]), words.subrange(cursor + 1, cursor + word_count_of(words[cursor])))
}

/// The instructions from `cursor` to the end of `words`, or `None` where one claims no words
/// or more words than are left.
pub open spec fn insts_from(words: Seq<u32>, cursor: int) -> Option<Seq<Inst>>
    decreases words.len() - cursor,
{
    if cursor < 0 || cursor >= words.len() {
        Some(Seq::empty())
    } else {
        let count = word_count_of(words[cursor]);
        if count == 0 || cursor + count > words.len() {
            None
        } else {
            match insts_from(words, cursor + count) {
                Some(rest) => Some(seq![inst_at(words, cursor)] + rest),
                None => None,
            }
        }
    }
}

/// The instructions of a module: `None` where the header is not SPIR-V's or the words do not
/// split into instructions.
pub open spec fn module_insts(words: Seq<u32>) -> Option<Seq<Inst>> {
    if words.len() < HEADER_WORDS || words[0] != SPIRV_MAGIC {
        None
    } else {
        insts_from(words, HEADER_WORDS as int)
    }
}

/// The function a function body instruction belongs to, once `inst` is read with `current`
/// the function open before it.
pub open spec fn owner(current: Option<u32>, inst: Inst) -> Option<u32> {
    if inst.0 == OP_FUNCTION { Some(inst.1[1]) } else { current }
}

/// The function open after `insts`, or `None` where a function opens inside another or names
/// no id.
pub open spec fn open_state(insts: Seq<Inst>) -> Option<Option<u32>>
    decreases insts.len(),
{
    if insts.len() == 0 {
        Some(None)
    } else {
        match open_state(insts.drop_last()) {
            None => None,
            Some(current) => {
                let inst = insts.last();
                if inst.0 == OP_FUNCTION && (inst.1.len() < 2 || current is Some) {
                    None
                } else if inst.0 == OP_FUNCTION_END {
                    Some(None)
                } else {
                    Some(owner(current, inst))
                }
            },
        }
    }
}

/// The `k`th byte of `words`, little end first.
pub open spec fn byte_at(words: Seq<u32>, k: int) -> u8 {
    #[verifier::truncate] (((words[k / 4] >> ((8 * (k % 4)) as u32)) & 0xffu32) as u8)
}

/// Where the first zero byte of `words` stands at or after `k`.
pub open spec fn zero_from(words: Seq<u32>, k: int) -> Option<int>
    decreases 4 * words.len() - k,
{
    if k < 0 || k >= 4 * words.len() {
        None
    } else if byte_at(words, k) == 0 {
        Some(k)
    } else {
        zero_from(words, k + 1)
    }
}

/// The nul-terminated string `words` begin with, without its nul.
pub open spec fn literal_string(words: Seq<u32>) -> Option<Seq<u8>> {
    match zero_from(words, 0) {
        Some(z) => Some(Seq::new(z as nat, |k: int| byte_at(words, k))),
        None => None,
    }
}

/// An entry point names itself with a string that ends.
pub open spec fn names_itself(inst: Inst) -> bool {
    inst.0 == OP_ENTRY_POINT && inst.1.len() >= 3 ==> literal_string(inst.1.skip(2)) is Some
}

/// `words` are a module reflection can read: a SPIR-V header, then instructions that fill the
/// words exactly, functions that neither nest nor stay open, and entry points whose names end.
pub open spec fn well_formed(words: Seq<u32>) -> bool {
    match module_insts(words) {
        None => false,
        Some(insts) => {
            &&& open_state(insts) == Some(Option::<u32>::None)
            &&& forall|k: int| 0 <= k < insts.len() ==> #[trigger] names_itself(insts[k])
        },
    }
}


/// How a scalar type stores its value.
#[derive(Debug, Clone, Copy, PartialEq, Eq, Structural)]
pub enum ScalarKind {
    Float,
    Sint,
    Uint,
}

/// What reflection knows of a type the module declares.
#[derive(Debug, Clone, Copy, PartialEq, Eq, Structural)]
pub enum TypeInfo {
    Scalar { kind: ScalarKind, width: u32 },
    Vector { component: u32, count: u32 },
    Matrix { column: u32, count: u32 },
    Image { dim: u32, sampled: u32 },
    Sampler,
    SampledImage,
    Array { element: u32, length: u32 },
    RuntimeArray { element: u32 },
    /// A struct whose member types are the operands after the first of instruction `at`.
    Struct { at: usize },
    Pointer { pointee: u32 },
    AccelerationStructure,
    Opaque,
}

/// The type instruction `inst`, the `k`th of its module, declares.
pub open spec fn type_entry(inst: Inst, k: int) -> Option<(u32, TypeInfo)> {
    let (op, w) = inst;
    if (op == OP_TYPE_VOID || op == OP_TYPE_BOOL) && w.len() >= 1 {
        Some((w[0], TypeInfo::Opaque))
    } else if op == OP_TYPE_FLOAT && w.len() >= 2 {
        Some((w[0], TypeInfo::Scalar { kind: ScalarKind::Float, width: w[1] }))
    } else if op == OP_TYPE_INT && w.len() >= 3 {
        Some((w[0], TypeInfo::Scalar { kind: if w[2] == 0 { ScalarKind::Uint } else { ScalarKind::Sint }, width: w[1] }))
    } else if op == OP_TYPE_VECTOR && w.len() >= 3 {
        Some((w[0], TypeInfo::Vector { component: w[1], count: w[2] }))
    } else if op == OP_TYPE_MATRIX && w.len() >= 3 {
        Some((w[0], TypeInfo::Matrix { column: w[1], count: w[2] }))
    } else if op == OP_TYPE_IMAGE && w.len() >= 7 {
        Some((w[0], TypeInfo::Image { dim: w[2], sampled: w[6] }))
    } else if op == OP_TYPE_SAMPLER && w.len() >= 1 {
        Some((w[0], TypeInfo::Sampler))
    } else if op == OP_TYPE_SAMPLED_IMAGE && w.len() >= 1 {
        Some((w[0], TypeInfo::SampledImage))
    } else if op == OP_TYPE_ARRAY && w.len() >= 3 {
        Some((w[0], TypeInfo::Array { element: w[1], length: w[2] }))
    } else if op == OP_TYPE_RUNTIME_ARRAY && w.len() >= 2 {
        Some((w[0], TypeInfo::RuntimeArray { element: w[1] }))
    } else if op == OP_TYPE_STRUCT && w.len() >= 1 {
        Some((w[0], TypeInfo::Struct { at: k as usize }))
    } else if op == OP_TYPE_POINTER && w.len() >= 3 {
        Some((w[0], TypeInfo::Pointer { pointee: w[2] }))
    } else if op == OP_TYPE_ACCELERATION_STRUCTURE && w.len() >= 1 {
        Some((w[0], TypeInfo::AccelerationStructure))
    } else {
        None
    }
}

/// The opcodes whose result reflection follows the type of.
pub open spec fn is_typed_value(op: u32) -> bool {
    op == OP_FUNCTION_PARAMETER || op == OP_FUNCTION_CALL || op == OP_IMAGE_TEXEL_POINTER || op == OP_LOAD
        || op == OP_ACCESS_CHAIN || op == OP_IN_BOUNDS_ACCESS_CHAIN || op == OP_PTR_ACCESS_CHAIN
        || op == OP_IN_BOUNDS_PTR_ACCESS_CHAIN || op == OP_COPY_OBJECT || op == OP_COPY_LOGICAL || op == OP_SAMPLED_IMAGE
        || op == OP_IMAGE || op == OP_BITCAST || op == OP_SELECT || op == OP_PHI
}

/// The types `insts` declare, in the order they were declared.
pub open spec fn types_of(insts: Seq<Inst>) -> Seq<(u32, TypeInfo)>
    decreases insts.len(),
{
    if insts.len() == 0 {
        Seq::empty()
    } else {
        match type_entry(insts.last(), insts.len() - 1) {
            Some(e) => types_of(insts.drop_last()).push(e),
            None => types_of(insts.drop_last()),
        }
    }
}

/// The scalar constants `insts` define, each as its id and value.
pub open spec fn constants_of(insts: Seq<Inst>) -> Seq<(u32, u32)>
    decreases insts.len(),
{
    if insts.len() == 0 {
        Seq::empty()
    } else {
        let (op, w) = insts.last();
        if op == OP_CONSTANT && w.len() >= 3 {
            constants_of(insts.drop_last()).push((w[1], w[2]))
        } else {
            constants_of(insts.drop_last())
        }
    }
}

/// The variables `insts` declare: id, pointer type, storage class.
pub open spec fn variables_of(insts: Seq<Inst>) -> Seq<(u32, u32, u32)>
    decreases insts.len(),
{
    if insts.len() == 0 {
        Seq::empty()
    } else {
        let (op, w) = insts.last();
        if op == OP_VARIABLE && w.len() >= 3 {
            variables_of(insts.drop_last()).push((w[1], w[0], w[2]))
        } else {
            variables_of(insts.drop_last())
        }
    }
}

/// The values `insts` define with a type reflection follows: id, type.
pub open spec fn value_types_of(insts: Seq<Inst>) -> Seq<(u32, u32)>
    decreases insts.len(),
{
    if insts.len() == 0 {
        Seq::empty()
    } else {
        let (op, w) = insts.last();
        if (op == OP_VARIABLE && w.len() >= 3) || (is_typed_value(op) && w.len() >= 2) {
            value_types_of(insts.drop_last()).push((w[1], w[0]))
        } else {
            value_types_of(insts.drop_last())
        }
    }
}

/// The decorations among `insts`: target, decoration, and the index of the
/// instruction, whose operands after the first two are the decoration's.
pub open spec fn decorations_of(insts: Seq<Inst>) -> Seq<(u32, u32, usize)>
    decreases insts.len(),
{
    if insts.len() == 0 {
        Seq::empty()
    } else {
        let (op, w) = insts.last();
        if op == OP_DECORATE && w.len() >= 2 {
            decorations_of(insts.drop_last()).push((w[0], w[1], (insts.len() - 1) as usize))
        } else {
            decorations_of(insts.drop_last())
        }
    }
}

/// The member decorations among `insts`: struct, member, decoration, and
/// the index of the instruction, whose operands after the first three are the decoration's.
pub open spec fn member_decorations_of(insts: Seq<Inst>) -> Seq<(u32, u32, u32, usize)>
    decreases insts.len(),
{
    if insts.len() == 0 {
        Seq::empty()
    } else {
        let (op, w) = insts.last();
        if op == OP_MEMBER_DECORATE && w.len() >= 3 {
            member_decorations_of(insts.drop_last()).push((w[0], w[1], w[2], (insts.len() - 1) as usize))
        } else {
            member_decorations_of(insts.drop_last())
        }
    }
}

/// The entry points among `insts`: execution model, function, name.
pub open spec fn entry_points_of(insts: Seq<Inst>) -> Seq<(u32, u32, Seq<u8>)>
    decreases insts.len(),
{
    if insts.len() == 0 {
        Seq::empty()
    } else {
        let (op, w) = insts.last();
        if op == OP_ENTRY_POINT && w.len() >= 3 {
            entry_points_of(insts.drop_last()).push((w[0], w[1], literal_string(w.skip(2)).unwrap()))
        } else {
            entry_points_of(insts.drop_last())
        }
    }
}

/// The workgroup the last `LocalSize` among `insts` declares, or, with
/// `by_id`, the constants the last `LocalSizeId` names.
pub open spec fn local_size_of(insts: Seq<Inst>, by_id: bool) -> Option<(u32, u32, u32)>
    decreases insts.len(),
{
    if insts.len() == 0 {
        None
    } else {
        let (op, w) = insts.last();
        if w.len() >= 5 && ((!by_id && op == OP_EXECUTION_MODE && w[1] == EXECUTION_MODE_LOCAL_SIZE) || (by_id && op
            == OP_EXECUTION_MODE_ID && w[1] == EXECUTION_MODE_LOCAL_SIZE_ID)) {
            Some((w[2], w[3], w[4]))
        } else {
            local_size_of(insts.drop_last(), by_id)
        }
    }
}

/// The function the `k`th instruction belongs to, if it stands in one.
pub open spec fn function_at(insts: Seq<Inst>, k: int) -> Option<u32> {
    owner(open_state(insts.take(k)).unwrap(), insts[k])
}

/// One instruction of a module, with the function it belongs to.
pub struct Instruction {
    pub opcode: u32,
    pub operands: Vec<u32>,
    pub function: Option<u32>,
}

/// An entry point: its execution model, its function and its name.
pub struct EntryPoint {
    pub execution_model: u32,
    pub function: u32,
    pub name: Vec<u8>,
}

/// What reflection reads out of a module in one pass over its instructions. Where the module
/// declares something twice, the later declaration is the one that counts.
pub struct Parsed {
    pub entry_points: Vec<EntryPoint>,
    pub types: Vec<(u32, TypeInfo)>,
    pub decorations: Vec<(u32, u32, usize)>,
    pub member_decorations: Vec<(u32, u32, u32, usize)>,
    pub constants: Vec<(u32, u32)>,
    pub variables: Vec<(u32, u32, u32)>,
    pub value_types: Vec<(u32, u32)>,
    pub instructions: Vec<Instruction>,
    pub local_size: Option<(u32, u32, u32)>,
    pub local_size_id: Option<(u32, u32, u32)>,
}

impl Parsed {
    /// `insts` read into this.
    pub open spec fn reads(&self, insts: Seq<Inst>) -> bool {
        &&& self.types@ == types_of(insts)
        &&& self.constants@ == constants_of(insts)
        &&& self.variables@ == variables_of(insts)
        &&& self.value_types@ == value_types_of(insts)
        &&& self.decorations@ == decorations_of(insts)
        &&& self.member_decorations@ == member_decorations_of(insts)
        &&& self.local_size == local_size_of(insts, false)
        &&& self.local_size_id == local_size_of(insts, true)
        &&& self.entry_points@.len() == entry_points_of(insts).len()
        &&& forall|e: int|
            0 <= e < self.entry_points@.len() ==> {
                let (model, function, name) = #[trigger] entry_points_of(insts)[e];
                &&& self.entry_points@[e].execution_model == model
                &&& self.entry_points@[e].function == function
                &&& self.entry_points@[e].name@ == name
            }
        &&& self.instructions@.len() == insts.len()
        &&& forall|k: int|
            0 <= k < insts.len() ==> {
                &&& (#[trigger] self.instructions@[k]).opcode == insts[k].0
                &&& self.instructions@[k].operands@ == insts[k].1
                &&& self.instructions@[k].function == function_at(insts, k)
            }
    }

}

/// Once a function opens inside another, no instructions after it mend the module.
proof fn lemma_broken_nesting_stays_broken(a: Seq<Inst>, b: Seq<Inst>)
    requires
        open_state(a) is None,
    ensures
        open_state(a + b) is None,
    decreases b.len(),
{
    if b.len() == 0 {
        assert(a + b =~= a);
    } else {
        lemma_broken_nesting_stays_broken(a, b.drop_last());
        assert((a + b).drop_last() =~= a + b.drop_last());
    }
}

/// The nul-terminated string at the start of `words[from..]`, without its nul.
fn decode_literal_string(words: &Vec<u32>, from: usize) -> (r: Option<Vec<u8>>)
    requires
        from <= words@.len(),
    ensures
        match literal_string(words@.skip(from as int)) {
            Some(name) => r matches Some(bytes) && bytes@ == name,
            None => r is None,
        },
{
    let ghost ws = words@.skip(from as int);
    let n = words.len() - from;
    let mut bytes: Vec<u8> = Vec::new();
    let mut w: usize = 0;
    while w < n
        invariant
            n == ws.len(),
            from + n == words@.len(),
            from + n <= usize::MAX,
            ws == words@.skip(from as int),
            w <= n,
            bytes@.len() == 4 * w,
            forall|j: int| 0 <= j < bytes@.len() ==> bytes@[j] == byte_at(ws, j),
            zero_from(ws, 0) == zero_from(ws, 4 * w),
        decreases n - w,
    {
        let word = words[from + w];
        let mut i: u32 = 0;
        while i < 4
            invariant
                n == ws.len(),
                from + n == words@.len(),
                ws == words@.skip(from as int),
                w < n,
                i <= 4,
                word == ws[w as int],
                bytes@.len() == 4 * w + i,
                forall|j: int| 0 <= j < bytes@.len() ==> bytes@[j] == byte_at(ws, j),
                zero_from(ws, 0) == zero_from(ws, 4 * w + i),
            decreases 4 - i,
        {
            let byte = #[verifier::truncate] (((word >> (8 * i)) & 0xff) as u8);
            let ghost k = 4 * w + i;
            assert(k / 4 == w && k % 4 == i) by (nonlinear_arith)
                requires
                    k == 4 * w + i,
                    0 <= i < 4,
                    w >= 0,
            ;
            assert(byte == byte_at(ws, k));
            if byte == 0 {
                assert(zero_from(ws, k) == Some(k));
                assert(bytes@ =~= Seq::new(k as nat, |j: int| byte_at(ws, j)));
                return Some(bytes);
            }
            bytes.push(byte);
            i = i + 1;
        }
        w = w + 1;
    }
    assert(zero_from(ws, 4 * w) is None);
    None
}

/// The words `spirv[start..end]`.
fn words_between(spirv: &[u32], start: usize, end: usize) -> (r: Vec<u32>)
    requires
        start <= end <= spirv@.len(),
    ensures
        r@ == spirv@.subrange(start as int, end as int),
{
    let mut out: Vec<u32> = Vec::new();
    let mut j = start;
    while j < end
        invariant
            start <= j <= end <= spirv@.len(),
            out@ == spirv@.subrange(start as int, j as int),
        decreases end - j,
    {
        out.push(spirv[j]);
        j = j + 1;
        assert(out@ =~= spirv@.subrange(start as int, j as int));
    }
    out
}

/// Reads a module's instructions, in one pass, into what reflection asks of them. `None`
/// exactly where the words are not a module reflection can read.
pub fn parse(spirv: &[u32]) -> (r: Option<Parsed>)
    ensures
        r is Some <==> well_formed(spirv@),
        r matches Some(parsed) ==> parsed@ == model_of(module_insts(spirv@).unwrap()),
{
    if spirv.len() < HEADER_WORDS || spirv[0] != SPIRV_MAGIC {
        return None;
    }
    let mut parsed = Parsed {
        entry_points: Vec::new(),
        types: Vec::new(),
        decorations: Vec::new(),
        member_decorations: Vec::new(),
        constants: Vec::new(),
        variables: Vec::new(),
        value_types: Vec::new(),
        instructions: Vec::new(),
        local_size: None,
        local_size_id: None,
    };
    let mut cursor: usize = HEADER_WORDS;
    let mut current: Option<u32> = None;
    let ghost mut done: Seq<Inst> = Seq::empty();
    while cursor < spirv.len()
        invariant
            HEADER_WORDS <= cursor <= spirv@.len(),
            spirv@.len() >= HEADER_WORDS && spirv@[0] == SPIRV_MAGIC,
            module_insts(spirv@) == (match insts_from(spirv@, cursor as int) {
                Some(rest) => Some(done + rest),
                None => None,
            }),
            open_state(done) == Some(current),
            forall|k: int| 0 <= k < done.len() ==> #[trigger] names_itself(done[k]),
            parsed.reads(done),
        decreases spirv@.len() - cursor,
    {
        let word = spirv[cursor];
        let word_count = (word >> 16) as usize;
        let opcode = word & 0xffff;
        if word_count == 0 || word_count > spirv.len() - cursor {
            return None;
        }
        let operands = words_between(spirv, cursor + 1, cursor + word_count);
        let ghost inst: Inst = (opcode, operands@);
        assert(inst == inst_at(spirv@, cursor as int));
        let ghost rest = insts_from(spirv@, (cursor + word_count) as int);
        let ghost next = done.push(inst);
        assert(next.drop_last() =~= done);
        assert(next.last() == inst);
        if opcode == OP_FUNCTION {
            if operands.len() < 2 || current.is_some() {
                proof {
                    assert(open_state(next) is None);
                    if let Some(rest) = rest {
                        lemma_broken_nesting_stays_broken(next, rest);
                        assert(done + (seq![inst] + rest) =~= next + rest);
                    }
                }
                return None;
            }
            current = Some(operands[1]);
        }
        let function = current;
        assert(function == owner(open_state(done).unwrap(), inst));
        if opcode == OP_ENTRY_POINT && operands.len() >= 3 {
            match decode_literal_string(&operands, 2) {
                Some(name) => {
                    parsed.entry_points.push(EntryPoint { execution_model: operands[0], function: operands[1], name });
                },
                None => {
                    proof {
                        if let Some(rest) = rest {
                            assert(done + (seq![inst] + rest) =~= next + rest);
                            assert((next + rest)[done.len() as int] == inst);
                            assert(!names_itself(inst));
                        }
                    }
                    return None;
                },
            }
        } else if opcode == OP_EXECUTION_MODE && operands.len() >= 5 && operands[1] == EXECUTION_MODE_LOCAL_SIZE {
            parsed.local_size = Some((operands[2], operands[3], operands[4]));
        } else if opcode == OP_EXECUTION_MODE_ID && operands.len() >= 5 && operands[1] == EXECUTION_MODE_LOCAL_SIZE_ID {
            parsed.local_size_id = Some((operands[2], operands[3], operands[4]));
        } else if (opcode == OP_TYPE_VOID || opcode == OP_TYPE_BOOL) && operands.len() >= 1 {
            parsed.types.push((operands[0], TypeInfo::Opaque));
        } else if opcode == OP_TYPE_FLOAT && operands.len() >= 2 {
            parsed.types.push((operands[0], TypeInfo::Scalar { kind: ScalarKind::Float, width: operands[1] }));
        } else if opcode == OP_TYPE_INT && operands.len() >= 3 {
            let kind = if operands[2] == 0 {
                ScalarKind::Uint
            } else {
                ScalarKind::Sint
            };
            parsed.types.push((operands[0], TypeInfo::Scalar { kind, width: operands[1] }));
        } else if opcode == OP_TYPE_VECTOR && operands.len() >= 3 {
            parsed.types.push((operands[0], TypeInfo::Vector { component: operands[1], count: operands[2] }));
        } else if opcode == OP_TYPE_MATRIX && operands.len() >= 3 {
            parsed.types.push((operands[0], TypeInfo::Matrix { column: operands[1], count: operands[2] }));
        } else if opcode == OP_TYPE_IMAGE && operands.len() >= 7 {
            parsed.types.push((operands[0], TypeInfo::Image { dim: operands[2], sampled: operands[6] }));
        } else if opcode == OP_TYPE_SAMPLER && operands.len() >= 1 {
            parsed.types.push((operands[0], TypeInfo::Sampler));
        } else if opcode == OP_TYPE_SAMPLED_IMAGE && operands.len() >= 1 {
            parsed.types.push((operands[0], TypeInfo::SampledImage));
        } else if opcode == OP_TYPE_ARRAY && operands.len() >= 3 {
            parsed.types.push((operands[0], TypeInfo::Array { element: operands[1], length: operands[2] }));
        } else if opcode == OP_TYPE_RUNTIME_ARRAY && operands.len() >= 2 {
            parsed.types.push((operands[0], TypeInfo::RuntimeArray { element: operands[1] }));
        } else if opcode == OP_TYPE_STRUCT && operands.len() >= 1 {
            parsed.types.push((operands[0], TypeInfo::Struct { at: parsed.instructions.len() }));
        } else if opcode == OP_TYPE_POINTER && operands.len() >= 3 {
            parsed.types.push((operands[0], TypeInfo::Pointer { pointee: operands[2] }));
        } else if opcode == OP_TYPE_ACCELERATION_STRUCTURE && operands.len() >= 1 {
            parsed.types.push((operands[0], TypeInfo::AccelerationStructure));
        } else if opcode == OP_CONSTANT && operands.len() >= 3 {
            parsed.constants.push((operands[1], operands[2]));
        } else if opcode == OP_VARIABLE && operands.len() >= 3 {
            parsed.variables.push((operands[1], operands[0], operands[2]));
            parsed.value_types.push((operands[1], operands[0]));
        } else if (opcode == OP_FUNCTION_PARAMETER || opcode == OP_FUNCTION_CALL || opcode == OP_IMAGE_TEXEL_POINTER
            || opcode == OP_LOAD || opcode == OP_ACCESS_CHAIN || opcode == OP_IN_BOUNDS_ACCESS_CHAIN || opcode
            == OP_PTR_ACCESS_CHAIN || opcode == OP_IN_BOUNDS_PTR_ACCESS_CHAIN || opcode == OP_COPY_OBJECT || opcode
            == OP_COPY_LOGICAL || opcode == OP_SAMPLED_IMAGE || opcode == OP_IMAGE || opcode == OP_BITCAST || opcode
            == OP_SELECT || opcode == OP_PHI) && operands.len() >= 2 {
            parsed.value_types.push((operands[1], operands[0]));
        } else if opcode == OP_DECORATE && operands.len() >= 2 {
            parsed.decorations.push((operands[0], operands[1], parsed.instructions.len()));
        } else if opcode == OP_MEMBER_DECORATE && operands.len() >= 3 {
            parsed.member_decorations.push((operands[0], operands[1], operands[2], parsed.instructions.len()));
        }
        let ghost before = parsed.instructions@;
        parsed.instructions.push(Instruction { opcode, operands, function });
        if opcode == OP_FUNCTION_END {
            current = None;
        }
        cursor = cursor + word_count;
        proof {
            assert(done + (seq![inst] + rest.unwrap_or(Seq::empty())) =~= next + rest.unwrap_or(Seq::empty()));
            assert forall|k: int| 0 <= k < next.len() implies #[trigger] names_itself(next[k]) by {
                if k < done.len() {
                    assert(next[k] == done[k]);
                }
            }
            assert forall|k: int| 0 <= k < done.len() implies #[trigger] next.take(k) == done.take(k) by {
                assert(next.take(k) =~= done.take(k));
            }
            assert(next.take(done.len() as int) =~= done);
            assert forall|k: int| 0 <= k < next.len() implies {
                &&& (#[trigger] parsed.instructions@[k]).opcode == next[k].0
                &&& parsed.instructions@[k].operands@ == next[k].1
                &&& parsed.instructions@[k].function == function_at(next, k)
            } by {
                if k < done.len() {
                    assert(parsed.instructions@[k] == before[k]);
                    assert(next.take(k) == done.take(k));
                }
            }
            assert forall|e: int| 0 <= e < parsed.entry_points@.len() implies {
                let (model, function, name) = #[trigger] entry_points_of(next)[e];
                &&& parsed.entry_points@[e].execution_model == model
                &&& parsed.entry_points@[e].function == function
                &&& parsed.entry_points@[e].name@ == name
            } by {
                assert(entry_points_of(next) == if opcode == OP_ENTRY_POINT && inst.1.len() >= 3 {
                    entry_points_of(done).push((inst.1[0], inst.1[1], literal_string(inst.1.skip(2)).unwrap()))
                } else {
                    entry_points_of(done)
                });
            }
            done = next;
        }
    }
    if current.is_some() {
        return None;
    }
    proof {
        assert(done + Seq::<Inst>::empty() =~= done);
        assert forall|e: int| 0 <= e < parsed@.entry_points.len() implies parsed@.entry_points[e]
            == #[trigger] entry_points_of(done)[e] by {
            let (model, function, name) = entry_points_of(done)[e];
            assert(parsed.entry_points@[e].name@ == name);
        }
        assert(parsed@.entry_points =~= entry_points_of(done));
        assert forall|k: int| 0 <= k < parsed@.instructions.len() implies parsed@.instructions[k]
            == #[trigger] model_of(done).instructions[k] by {
            assert(parsed.instructions@[k].opcode == done[k].0);
        }
        assert(parsed@.instructions =~= model_of(done).instructions);
        assert(parsed@ =~= model_of(done));
    }
    Some(parsed)
}

/// Vulkan's raw formats a vertex attribute of 32-bit components is read through.
pub const FORMAT_R32_UINT: i32 = 98;
pub const FORMAT_R32_SINT: i32 = 99;
pub const FORMAT_R32_SFLOAT: i32 = 100;
pub const FORMAT_R32G32_UINT: i32 = 101;
pub const FORMAT_R32G32_SINT: i32 = 102;
pub const FORMAT_R32G32_SFLOAT: i32 = 103;
pub const FORMAT_R32G32B32_UINT: i32 = 104;
pub const FORMAT_R32G32B32_SINT: i32 = 105;
pub const FORMAT_R32G32B32_SFLOAT: i32 = 106;
pub const FORMAT_R32G32B32A32_UINT: i32 = 107;
pub const FORMAT_R32G32B32A32_SINT: i32 = 108;
pub const FORMAT_R32G32B32A32_SFLOAT: i32 = 109;

/// The format of `count` 32-bit components of `kind`.
pub open spec fn format_of(kind: ScalarKind, count: u32) -> Option<i32> {
    match kind {
        ScalarKind::Float => if count == 1 {
            Some(FORMAT_R32_SFLOAT)
        } else if count == 2 {
            Some(FORMAT_R32G32_SFLOAT)
        } else if count == 3 {
            Some(FORMAT_R32G32B32_SFLOAT)
        } else if count == 4 {
            Some(FORMAT_R32G32B32A32_SFLOAT)
        } else {
            None
        },
        ScalarKind::Sint => if count == 1 {
            Some(FORMAT_R32_SINT)
        } else if count == 2 {
            Some(FORMAT_R32G32_SINT)
        } else if count == 3 {
            Some(FORMAT_R32G32B32_SINT)
        } else if count == 4 {
            Some(FORMAT_R32G32B32A32_SINT)
        } else {
            None
        },
        ScalarKind::Uint => if count == 1 {
            Some(FORMAT_R32_UINT)
        } else if count == 2 {
            Some(FORMAT_R32G32_UINT)
        } else if count == 3 {
            Some(FORMAT_R32G32B32_UINT)
        } else if count == 4 {
            Some(FORMAT_R32G32B32A32_UINT)
        } else {
            None
        },
    }
}

/// How deep reflection follows a type into the types it is made of.
pub const MAX_TYPE_DEPTH: u32 = 64;

/// The value of the newest entry of `entries` under `key`.
pub open spec fn newest<V>(entries: Seq<(u32, V)>, key: u32) -> Option<V>
    decreases entries.len(),
{
    if entries.len() == 0 {
        None
    } else if entries.last().0 == key {
        Some(entries.last().1)
    } else {
        newest(entries.drop_last(), key)
    }
}

/// The instruction index of the newest decoration `decoration` of `target`.
pub open spec fn newest_decoration(entries: Seq<(u32, u32, usize)>, target: u32, decoration: u32) -> Option<usize>
    decreases entries.len(),
{
    if entries.len() == 0 {
        None
    } else if entries.last().0 == target && entries.last().1 == decoration {
        Some(entries.last().2)
    } else {
        newest_decoration(entries.drop_last(), target, decoration)
    }
}

/// The instruction index of the newest decoration `decoration` of member `member` of `target`.
pub open spec fn newest_member_decoration(
    entries: Seq<(u32, u32, u32, usize)>,
    target: u32,
    member: u32,
    decoration: u32,
) -> Option<usize>
    decreases entries.len(),
{
    if entries.len() == 0 {
        None
    } else if entries.last().0 == target && entries.last().1 == member && entries.last().2 == decoration {
        Some(entries.last().3)
    } else {
        newest_member_decoration(entries.drop_last(), target, member, decoration)
    }
}

/// `a * b`, or the largest `u32` where that does not fit.
pub open spec fn saturating_mul(a: u32, b: u32) -> u32 {
    if a * b > u32::MAX { u32::MAX } else { (a * b) as u32 }
}

/// `a + b`, or the largest `u32` where that does not fit.
pub open spec fn saturating_add(a: u32, b: u32) -> u32 {
    if a + b > u32::MAX { u32::MAX } else { (a + b) as u32 }
}

fn mul_saturating(a: u32, b: u32) -> (r: u32)
    ensures
        r == saturating_mul(a, b),
{
    match a.checked_mul(b) {
        Some(product) => product,
        None => u32::MAX,
    }
}

fn add_saturating(a: u32, b: u32) -> (r: u32)
    ensures
        r == saturating_add(a, b),
{
    match a.checked_add(b) {
        Some(sum) => sum,
        None => u32::MAX,
    }
}

/// The value of the newest entry of `entries` under `key`.
fn find_newest<V: Copy>(entries: &Vec<(u32, V)>, key: u32) -> (r: Option<V>)
    ensures
        r == newest(entries@, key),
{
    let mut i: usize = entries.len();
    proof {
        assert(entries@.subrange(0, i as int) =~= entries@);
    }
    while i > 0
        invariant
            i <= entries@.len(),
            newest(entries@.subrange(0, i as int), key) == newest(entries@, key),
        decreases i,
    {
        if entries[i - 1].0 == key {
            return Some(entries[i - 1].1);
        }
        proof {
            assert(entries@.subrange(0, i as int).drop_last() =~= entries@.subrange(0, i - 1));
        }
        i = i - 1;
    }
    None
}

/// What reflection reads out of a module, as values: the view of [`Parsed`].
#[verifier::ext_equal]
pub struct ShaderModel {
    pub entry_points: Seq<(u32, u32, Seq<u8>)>,
    pub types: Seq<(u32, TypeInfo)>,
    pub decorations: Seq<(u32, u32, usize)>,
    pub member_decorations: Seq<(u32, u32, u32, usize)>,
    pub constants: Seq<(u32, u32)>,
    pub variables: Seq<(u32, u32, u32)>,
    pub value_types: Seq<(u32, u32)>,
    /// Each instruction's opcode, operands, and the function it stands in.
    pub instructions: Seq<(u32, Seq<u32>, Option<u32>)>,
    pub local_size: Option<(u32, u32, u32)>,
    pub local_size_id: Option<(u32, u32, u32)>,
}

impl View for Parsed {
    type V = ShaderModel;

    open spec fn view(&self) -> ShaderModel {
        ShaderModel {
            entry_points: Seq::new(
                self.entry_points@.len(),
                |e: int| (self.entry_points@[e].execution_model, self.entry_points@[e].function, self.entry_points@[e].name@),
            ),
            types: self.types@,
            decorations: self.decorations@,
            member_decorations: self.member_decorations@,
            constants: self.constants@,
            variables: self.variables@,
            value_types: self.value_types@,
            instructions: Seq::new(
                self.instructions@.len(),
                |k: int| (self.instructions@[k].opcode, self.instructions@[k].operands@, self.instructions@[k].function),
            ),
            local_size: self.local_size,
            local_size_id: self.local_size_id,
        }
    }
}

/// What reflection reads out of the instructions `insts`.
pub open spec fn model_of(insts: Seq<Inst>) -> ShaderModel {
    ShaderModel {
        entry_points: entry_points_of(insts),
        types: types_of(insts),
        decorations: decorations_of(insts),
        member_decorations: member_decorations_of(insts),
        constants: constants_of(insts),
        variables: variables_of(insts),
        value_types: value_types_of(insts),
        instructions: Seq::new(insts.len(), |k: int| (insts[k].0, insts[k].1, function_at(insts, k))),
        local_size: local_size_of(insts, false),
        local_size_id: local_size_of(insts, true),
    }
}

impl ShaderModel {
    pub open spec fn type_spec(self, id: u32) -> Option<TypeInfo> {
        newest(self.types, id)
    }

    pub open spec fn constant_spec(self, id: u32) -> Option<u32> {
        newest(self.constants, id)
    }

    pub open spec fn value_type_spec(self, id: u32) -> Option<u32> {
        newest(self.value_types, id)
    }

    /// The `index`th operand of instruction `at`, where both exist.
    pub open spec fn operand_spec(self, at: usize, index: int) -> Option<u32> {
        if at < self.instructions.len() && 0 <= index < self.instructions[at as int].1.len() {
            Some(self.instructions[at as int].1[index])
        } else {
            None
        }
    }

    pub open spec fn has_decoration_spec(self, target: u32, decoration: u32) -> bool {
        newest_decoration(self.decorations, target, decoration) is Some
    }

    /// The first literal of the newest decoration `decoration` of `target`.
    pub open spec fn decoration_spec(self, target: u32, decoration: u32) -> Option<u32> {
        match newest_decoration(self.decorations, target, decoration) {
            Some(at) => self.operand_spec(at, 2),
            None => None,
        }
    }

    pub open spec fn has_member_decoration_spec(self, target: u32, member: u32, decoration: u32) -> bool {
        newest_member_decoration(self.member_decorations, target, member, decoration) is Some
    }

    /// The first literal of the newest decoration `decoration` of member `member` of `target`.
    pub open spec fn member_decoration_spec(self, target: u32, member: u32, decoration: u32) -> Option<u32> {
        match newest_member_decoration(self.member_decorations, target, member, decoration) {
            Some(at) => self.operand_spec(at, 3),
            None => None,
        }
    }

    /// The member types of the struct declared by instruction `at`.
    pub open spec fn members_spec(self, at: usize) -> Seq<u32> {
        if at < self.instructions.len() && self.instructions[at as int].1.len() >= 1 {
            self.instructions[at as int].1.skip(1)
        } else {
            Seq::empty()
        }
    }

    /// The workgroup the module declares, whether as literals or as the constants it names.
    pub open spec fn declared_local_size_spec(self) -> Option<(u32, u32, u32)> {
        match self.local_size {
            Some(size) => Some(size),
            None => match self.local_size_id {
                None => None,
                Some((x, y, z)) => match (self.constant_spec(x), self.constant_spec(y), self.constant_spec(z)) {
                    (Some(a), Some(b), Some(c)) => Some((a, b, c)),
                    _ => None,
                },
            },
        }
    }

    /// `ty` with up to `fuel` levels of arrays taken off: the element type, how many elements
    /// the fixed-size levels hold, and whether a runtime-sized level was among them.
    pub open spec fn peel_spec(self, ty: u32, fuel: nat, count: u32, variable: bool) -> (u32, u32, bool)
        decreases fuel,
    {
        if fuel == 0 {
            (ty, count, variable)
        } else {
            match self.type_spec(ty) {
                Some(TypeInfo::Array { element, length }) => self.peel_spec(
                    element,
                    (fuel - 1) as nat,
                    saturating_mul(count, self.constant_spec(length).unwrap_or(1)),
                    variable,
                ),
                Some(TypeInfo::RuntimeArray { element }) => self.peel_spec(element, (fuel - 1) as nat, count, true),
                _ => (ty, count, variable),
            }
        }
    }

    /// How many bytes a value of `ty` spans, `depth` types deep; saturated at the largest
    /// `u32`, and zero past the depth reflection follows.
    pub open spec fn type_size_spec(self, ty: u32, depth: int) -> u32
        decreases 65 - depth, 1int, 0int,
    {
        if depth > MAX_TYPE_DEPTH {
            0
        } else {
            match self.type_spec(ty) {
                Some(TypeInfo::Scalar { width, .. }) => width / 8,
                Some(TypeInfo::Vector { component, count }) => saturating_mul(self.type_size_spec(component, depth + 1), count),
                Some(TypeInfo::Matrix { column, count }) => saturating_mul(
                    match self.decoration_spec(ty, DECORATION_MATRIX_STRIDE) {
                        Some(stride) => stride,
                        None => self.type_size_spec(column, depth + 1),
                    },
                    count,
                ),
                Some(TypeInfo::Array { element, length }) => saturating_mul(
                    match self.decoration_spec(ty, DECORATION_ARRAY_STRIDE) {
                        Some(stride) => stride,
                        None => self.type_size_spec(element, depth + 1),
                    },
                    self.constant_spec(length).unwrap_or(0),
                ),
                Some(TypeInfo::Pointer { .. }) => 8,
                Some(TypeInfo::Struct { at }) => self.struct_size_spec(ty, self.members_spec(at), depth),
                _ => 0,
            }
        }
    }

    /// Where the last of `members`, the first members of struct `ty`, ends: the furthest a
    /// member reaches from the start of the struct.
    pub open spec fn struct_size_spec(self, ty: u32, members: Seq<u32>, depth: int) -> u32
        decreases 65 - depth, 0int, members.len(),
    {
        if depth > MAX_TYPE_DEPTH || members.len() == 0 {
            0
        } else {
            let rest = self.struct_size_spec(ty, members.drop_last(), depth);
            let offset = self.member_decoration_spec(ty, (members.len() - 1) as u32, DECORATION_OFFSET).unwrap_or(0);
            let end = saturating_add(offset, self.type_size_spec(members.last(), depth + 1));
            if end > rest { end } else { rest }
        }
    }

    /// The least offset among the first `n` members of struct `ty`, a member without one
    /// counting as at zero.
    pub open spec fn least_offset(self, ty: u32, n: nat) -> Option<u32>
        decreases n,
    {
        if n == 0 {
            None
        } else {
            let offset = self.member_decoration_spec(ty, (n - 1) as u32, DECORATION_OFFSET).unwrap_or(0);
            match self.least_offset(ty, (n - 1) as nat) {
                Some(least) => Some(if offset < least { offset } else { least }),
                None => Some(offset),
            }
        }
    }

    /// The first byte a push constant block of type `ty` occupies.
    pub open spec fn block_start_spec(self, ty: u32) -> u32 {
        match self.type_spec(ty) {
            Some(TypeInfo::Struct { at }) => self.least_offset(ty, self.members_spec(at).len()).unwrap_or(0),
            _ => 0,
        }
    }

    /// The kind, width and component count of a scalar or vector type.
    pub open spec fn components_spec(self, ty: u32) -> Option<(ScalarKind, u32, u32)> {
        match self.type_spec(ty) {
            Some(TypeInfo::Scalar { kind, width }) => Some((kind, width, 1)),
            Some(TypeInfo::Vector { component, count }) => match self.type_spec(component) {
                Some(TypeInfo::Scalar { kind, width }) => Some((kind, width, count)),
                _ => None,
            },
            _ => None,
        }
    }

    /// The attribute format a vertex input of type `ty` is read through: one to four 32-bit
    /// components. Anything wider spans more than one location.
    pub open spec fn vertex_format_spec(self, ty: u32) -> Option<i32> {
        match self.components_spec(ty) {
            Some((kind, width, count)) => if width != 32 {
                None
            } else {
                format_of(kind, count)
            },
            None => None,
        }
    }

    /// The descriptor type a variable in `storage_class` pointing at `pointee` is bound as.
    pub open spec fn descriptor_type_spec(self, storage_class: u32, pointee: u32) -> Option<i32> {
        if storage_class == STORAGE_CLASS_UNIFORM_CONSTANT {
            match self.type_spec(pointee) {
                Some(TypeInfo::Image { dim, sampled }) => Some(
                    if dim == DIM_SUBPASS_DATA {
                        DESCRIPTOR_TYPE_INPUT_ATTACHMENT
                    } else if dim == DIM_BUFFER && sampled == 1 {
                        DESCRIPTOR_TYPE_UNIFORM_TEXEL_BUFFER
                    } else if dim == DIM_BUFFER {
                        DESCRIPTOR_TYPE_STORAGE_TEXEL_BUFFER
                    } else if sampled == 1 {
                        DESCRIPTOR_TYPE_SAMPLED_IMAGE
                    } else {
                        DESCRIPTOR_TYPE_STORAGE_IMAGE
                    },
                ),
                Some(TypeInfo::Sampler) => Some(DESCRIPTOR_TYPE_SAMPLER),
                Some(TypeInfo::SampledImage) => Some(DESCRIPTOR_TYPE_COMBINED_IMAGE_SAMPLER),
                Some(TypeInfo::AccelerationStructure) => Some(DESCRIPTOR_TYPE_ACCELERATION_STRUCTURE),
                _ => None,
            }
        } else if storage_class == STORAGE_CLASS_UNIFORM {
            Some(
                if self.has_decoration_spec(pointee, DECORATION_BUFFER_BLOCK) {
                    DESCRIPTOR_TYPE_STORAGE_BUFFER
                } else {
                    DESCRIPTOR_TYPE_UNIFORM_BUFFER
                },
            )
        } else if storage_class == STORAGE_CLASS_STORAGE_BUFFER {
            Some(DESCRIPTOR_TYPE_STORAGE_BUFFER)
        } else {
            None
        }
    }

    /// Whether `ty`, or what it points at or holds, is decorated as not readable and as not
    /// writable.
    pub open spec fn type_constraints_spec(self, ty: u32, depth: int) -> (bool, bool)
        decreases 65 - depth,
    {
        if depth > MAX_TYPE_DEPTH {
            (false, false)
        } else {
            let nested = match self.type_spec(ty) {
                Some(TypeInfo::Pointer { pointee }) => self.type_constraints_spec(pointee, depth + 1),
                Some(TypeInfo::Array { element, .. }) => self.type_constraints_spec(element, depth + 1),
                Some(TypeInfo::RuntimeArray { element }) => self.type_constraints_spec(element, depth + 1),
                _ => (false, false),
            };
            (
                self.has_decoration_spec(ty, DECORATION_NON_READABLE) || nested.0,
                self.has_decoration_spec(ty, DECORATION_NON_WRITABLE) || nested.1,
            )
        }
    }

    /// Whether a value of `ty` can stand for a descriptor: a pointer, an opaque handle, or an
    /// array of them.
    pub open spec fn type_carries_provenance_spec(self, ty: u32, depth: int) -> bool
        decreases 65 - depth,
    {
        if depth > MAX_TYPE_DEPTH {
            false
        } else {
            match self.type_spec(ty) {
                Some(TypeInfo::Pointer { .. }) | Some(TypeInfo::Image { .. }) | Some(TypeInfo::Sampler) | Some(
                    TypeInfo::SampledImage,
                ) | Some(TypeInfo::AccelerationStructure) => true,
                Some(TypeInfo::Array { element, .. }) => self.type_carries_provenance_spec(element, depth + 1),
                Some(TypeInfo::RuntimeArray { element }) => self.type_carries_provenance_spec(element, depth + 1),
                _ => false,
            }
        }
    }

    pub open spec fn value_carries_provenance_spec(self, value: u32) -> bool {
        match self.value_type_spec(value) {
            Some(ty) => self.type_carries_provenance_spec(ty, 0),
            None => false,
        }
    }

    /// Whether `value` is an image, sampler or acceleration structure handle itself rather than
    /// memory behind a pointer.
    pub open spec fn value_is_opaque_handle_spec(self, value: u32) -> bool {
        match self.value_type_spec(value) {
            Some(ty) => match self.type_spec(ty) {
                Some(TypeInfo::Image { .. }) | Some(TypeInfo::Sampler) | Some(TypeInfo::SampledImage) | Some(
                    TypeInfo::AccelerationStructure,
                ) => true,
                _ => false,
            },
            None => false,
        }
    }

    /// One step of an access chain into `ty` by the constant `index`: the type it reaches,
    /// and the decorations against reading and writing it passed.
    pub open spec fn chain_step(self, ty: u32, index: u32) -> (u32, (bool, bool)) {
        let ty = pointee_chain(self, ty, MAX_TYPE_DEPTH as nat);
        match self.type_spec(ty) {
            Some(TypeInfo::Struct { at }) => match self.constant_spec(index) {
                Some(member) => if (member as int) < self.members_spec(at).len() {
                    let member_type = self.members_spec(at)[member as int];
                    let nested = self.type_constraints_spec(member_type, 0);
                    (
                        member_type,
                        (
                            self.has_member_decoration_spec(ty, member, DECORATION_NON_READABLE) || nested.0,
                            self.has_member_decoration_spec(ty, member, DECORATION_NON_WRITABLE) || nested.1,
                        ),
                    )
                } else {
                    (ty, (false, false))
                },
                None => (ty, (false, false)),
            },
            Some(TypeInfo::Array { element, .. }) => (element, (false, false)),
            Some(TypeInfo::RuntimeArray { element }) => (element, (false, false)),
            Some(TypeInfo::Vector { component, .. }) => (component, (false, false)),
            Some(TypeInfo::Matrix { column, .. }) => (column, (false, false)),
            _ => (ty, (false, false)),
        }
    }

    /// The decorations against reading and writing an access chain from `ty` through
    /// `indices` passes, added to `found`.
    pub open spec fn chain_spec(self, ty: u32, indices: Seq<u32>, found: (bool, bool)) -> (bool, bool)
        decreases indices.len(),
    {
        if indices.len() == 0 {
            found
        } else {
            let (next, step) = self.chain_step(ty, indices[0]);
            self.chain_spec(next, indices.skip(1), (found.0 || step.0, found.1 || step.1))
        }
    }

    /// The decorations against reading and writing an access chain from `base` through
    /// `indices` passes.
    pub open spec fn access_chain_constraints_spec(self, base: u32, indices: Seq<u32>) -> (bool, bool) {
        match self.value_type_spec(base) {
            Some(ty) => self.chain_spec(ty, indices, (false, false)),
            None => (false, false),
        }
    }

    /// Instruction `i` is a call, in function `caller`, of function `callee`.
    pub open spec fn calls(self, i: int, caller: u32, callee: u32) -> bool {
        &&& 0 <= i < self.instructions.len()
        &&& self.instructions[i].0 == OP_FUNCTION_CALL
        &&& self.instructions[i].2 == Some(caller)
        &&& self.instructions[i].1.len() >= 3
        &&& self.instructions[i].1[2] == callee
    }

    /// Function `r[j]` is called from a function listed before it in `r`.
    pub open spec fn called_earlier(self, r: Seq<u32>, j: int) -> bool {
        exists|i: int, c: int| 0 <= c < j && #[trigger] self.calls(i, r[c], r[j])
    }
}

impl Parsed {
    pub fn type_of(&self, id: u32) -> (r: Option<TypeInfo>)
        ensures
            r == self@.type_spec(id),
    {
        find_newest(&self.types, id)
    }

    pub fn constant(&self, id: u32) -> (r: Option<u32>)
        ensures
            r == self@.constant_spec(id),
    {
        find_newest(&self.constants, id)
    }

    pub fn value_type(&self, id: u32) -> (r: Option<u32>)
        ensures
            r == self@.value_type_spec(id),
    {
        find_newest(&self.value_types, id)
    }

    fn operand(&self, at: usize, index: usize) -> (r: Option<u32>)
        ensures
            r == self@.operand_spec(at, index as int),
    {
        if at < self.instructions.len() && index < self.instructions[at].operands.len() {
            Some(self.instructions[at].operands[index])
        } else {
            None
        }
    }

    fn decoration_at(&self, target: u32, decoration: u32) -> (r: Option<usize>)
        ensures
            r == newest_decoration(self.decorations@, target, decoration),
    {
        let entries = &self.decorations;
        let mut i: usize = entries.len();
        proof {
            assert(entries@.subrange(0, i as int) =~= entries@);
        }
        while i > 0
            invariant
                entries@ == self.decorations@,
                i <= entries@.len(),
                newest_decoration(entries@.subrange(0, i as int), target, decoration) == newest_decoration(
                    entries@,
                    target,
                    decoration,
                ),
            decreases i,
        {
            let entry = entries[i - 1];
            if entry.0 == target && entry.1 == decoration {
                assert(entries@.subrange(0, i as int).last() == entry);
                return Some(entry.2);
            }
            proof {
                assert(entries@.subrange(0, i as int).drop_last() =~= entries@.subrange(0, i - 1));
            }
            i = i - 1;
        }
        None
    }

    fn member_decoration_at(&self, target: u32, member: u32, decoration: u32) -> (r: Option<usize>)
        ensures
            r == newest_member_decoration(self.member_decorations@, target, member, decoration),
    {
        let entries = &self.member_decorations;
        let mut i: usize = entries.len();
        proof {
            assert(entries@.subrange(0, i as int) =~= entries@);
        }
        while i > 0
            invariant
                entries@ == self.member_decorations@,
                i <= entries@.len(),
                newest_member_decoration(entries@.subrange(0, i as int), target, member, decoration)
                    == newest_member_decoration(entries@, target, member, decoration),
            decreases i,
        {
            let entry = entries[i - 1];
            if entry.0 == target && entry.1 == member && entry.2 == decoration {
                assert(entries@.subrange(0, i as int).last() == entry);
                return Some(entry.3);
            }
            proof {
                assert(entries@.subrange(0, i as int).drop_last() =~= entries@.subrange(0, i - 1));
            }
            i = i - 1;
        }
        None
    }

    pub fn has_decoration(&self, target: u32, decoration: u32) -> (r: bool)
        ensures
            r == self@.has_decoration_spec(target, decoration),
    {
        self.decoration_at(target, decoration).is_some()
    }

    pub fn decoration(&self, target: u32, decoration: u32) -> (r: Option<u32>)
        ensures
            r == self@.decoration_spec(target, decoration),
    {
        match self.decoration_at(target, decoration) {
            Some(at) => self.operand(at, 2),
            None => None,
        }
    }

    pub fn has_member_decoration(&self, target: u32, member: u32, decoration: u32) -> (r: bool)
        ensures
            r == self@.has_member_decoration_spec(target, member, decoration),
    {
        self.member_decoration_at(target, member, decoration).is_some()
    }

    pub fn member_decoration(&self, target: u32, member: u32, decoration: u32) -> (r: Option<u32>)
        ensures
            r == self@.member_decoration_spec(target, member, decoration),
    {
        match self.member_decoration_at(target, member, decoration) {
            Some(at) => self.operand(at, 3),
            None => None,
        }
    }

    /// How many members the struct declared by instruction `at` has.
    fn member_count(&self, at: usize) -> (r: usize)
        ensures
            r == self@.members_spec(at).len(),
    {
        if at < self.instructions.len() && self.instructions[at].operands.len() >= 1 {
            self.instructions[at].operands.len() - 1
        } else {
            0
        }
    }

    /// The `index`th member type of the struct declared by instruction `at`.
    fn member_type(&self, at: usize, index: usize) -> (r: u32)
        requires
            index < self@.members_spec(at).len(),
        ensures
            r == self@.members_spec(at)[index as int],
    {
        let operands = &self.instructions[at].operands;
        let count = operands.len();
        operands[index + 1]
    }
}

/// What an access chain step leaves: the type it reaches and whether it reached a member
/// that may not be read or written.
pub open spec fn pointee_chain(p: ShaderModel, ty: u32, fuel: nat) -> u32
    decreases fuel,
{
    if fuel == 0 {
        ty
    } else {
        match p.type_spec(ty) {
            Some(TypeInfo::Pointer { pointee }) => pointee_chain(p, pointee, (fuel - 1) as nat),
            _ => ty,
        }
    }
}

impl Parsed {
    pub fn declared_local_size(&self) -> (r: Option<(u32, u32, u32)>)
        ensures
            r == self@.declared_local_size_spec(),
    {
        if let Some(size) = self.local_size {
            return Some(size);
        }
        match self.local_size_id {
            None => None,
            Some((x, y, z)) => match (self.constant(x), self.constant(y), self.constant(z)) {
                (Some(a), Some(b), Some(c)) => Some((a, b, c)),
                _ => None,
            },
        }
    }

    pub fn peel_arrays(&self, ty: u32) -> (r: (u32, u32, bool))
        ensures
            r == self@.peel_spec(ty, MAX_TYPE_DEPTH as nat, 1, false),
    {
        let mut current = ty;
        let mut count: u32 = 1;
        let mut variable = false;
        let mut fuel: u32 = 0;
        while fuel < MAX_TYPE_DEPTH
            invariant
                fuel <= MAX_TYPE_DEPTH,
                self@.peel_spec(current, (MAX_TYPE_DEPTH - fuel) as nat, count, variable) == self@.peel_spec(
                    ty,
                    MAX_TYPE_DEPTH as nat,
                    1,
                    false,
                ),
            decreases MAX_TYPE_DEPTH - fuel,
        {
            match self.type_of(current) {
                Some(TypeInfo::Array { element, length }) => {
                    let factor = match self.constant(length) {
                        Some(n) => n,
                        None => 1,
                    };
                    count = mul_saturating(count, factor);
                    current = element;
                },
                Some(TypeInfo::RuntimeArray { element }) => {
                    variable = true;
                    current = element;
                },
                _ => return (current, count, variable),
            }
            fuel = fuel + 1;
        }
        (current, count, variable)
    }
}

impl Parsed {
    pub fn type_size(&self, ty: u32, depth: u32) -> (r: u32)
        ensures
            r == self@.type_size_spec(ty, depth as int),
        decreases 65 - depth,
    {
        if depth > MAX_TYPE_DEPTH {
            return 0;
        }
        match self.type_of(ty) {
            Some(TypeInfo::Scalar { width, .. }) => width / 8,
            Some(TypeInfo::Vector { component, count }) => mul_saturating(self.type_size(component, depth + 1), count),
            Some(TypeInfo::Matrix { column, count }) => {
                let stride = match self.decoration(ty, DECORATION_MATRIX_STRIDE) {
                    Some(stride) => stride,
                    None => self.type_size(column, depth + 1),
                };
                mul_saturating(stride, count)
            },
            Some(TypeInfo::Array { element, length }) => {
                let stride = match self.decoration(ty, DECORATION_ARRAY_STRIDE) {
                    Some(stride) => stride,
                    None => self.type_size(element, depth + 1),
                };
                let length = match self.constant(length) {
                    Some(n) => n,
                    None => 0,
                };
                mul_saturating(stride, length)
            },
            Some(TypeInfo::Pointer { .. }) => 8,
            Some(TypeInfo::Struct { at }) => {
                let count = self.member_count(at);
                let ghost members = self@.members_spec(at);
                let mut size: u32 = 0;
                let mut i: usize = 0;
                while i < count
                    invariant
                        depth <= MAX_TYPE_DEPTH,
                        count == members.len(),
                        members == self@.members_spec(at),
                        i <= count,
                        size == self@.struct_size_spec(ty, members.take(i as int), depth as int),
                    decreases count - i,
                {
                    let offset = match self.member_decoration(ty, i as u32, DECORATION_OFFSET) {
                        Some(offset) => offset,
                        None => 0,
                    };
                    let end = add_saturating(offset, self.type_size(self.member_type(at, i), depth + 1));
                    proof {
                        assert(members.take(i + 1).drop_last() =~= members.take(i as int));
                        assert(members.take(i + 1).last() == members[i as int]);
                    }
                    if end > size {
                        size = end;
                    }
                    i = i + 1;
                }
                proof {
                    assert(members.take(count as int) =~= members);
                }
                size
            },
            _ => 0,
        }
    }

    pub fn block_start(&self, ty: u32) -> (r: u32)
        ensures
            r == self@.block_start_spec(ty),
    {
        match self.type_of(ty) {
            Some(TypeInfo::Struct { at }) => {
                let count = self.member_count(at);
                let mut least: Option<u32> = None;
                let mut i: usize = 0;
                while i < count
                    invariant
                        count == self@.members_spec(at).len(),
                        i <= count,
                        least == self@.least_offset(ty, i as nat),
                    decreases count - i,
                {
                    let offset = match self.member_decoration(ty, i as u32, DECORATION_OFFSET) {
                        Some(offset) => offset,
                        None => 0,
                    };
                    least = match least {
                        Some(l) => Some(if offset < l { offset } else { l }),
                        None => Some(offset),
                    };
                    i = i + 1;
                }
                match least {
                    Some(l) => l,
                    None => 0,
                }
            },
            _ => 0,
        }
    }

    pub fn vertex_format(&self, ty: u32) -> (r: Option<i32>)
        ensures
            r == self@.vertex_format_spec(ty),
    {
        let (kind, width, count) = match self.type_of(ty) {
            Some(TypeInfo::Scalar { kind, width }) => (kind, width, 1u32),
            Some(TypeInfo::Vector { component, count }) => match self.type_of(component) {
                Some(TypeInfo::Scalar { kind, width }) => (kind, width, count),
                _ => return None,
            },
            _ => return None,
        };
        if width != 32 {
            return None;
        }
        match kind {
            ScalarKind::Float => if count == 1 {
                Some(FORMAT_R32_SFLOAT)
            } else if count == 2 {
                Some(FORMAT_R32G32_SFLOAT)
            } else if count == 3 {
                Some(FORMAT_R32G32B32_SFLOAT)
            } else if count == 4 {
                Some(FORMAT_R32G32B32A32_SFLOAT)
            } else {
                None
            },
            ScalarKind::Sint => if count == 1 {
                Some(FORMAT_R32_SINT)
            } else if count == 2 {
                Some(FORMAT_R32G32_SINT)
            } else if count == 3 {
                Some(FORMAT_R32G32B32_SINT)
            } else if count == 4 {
                Some(FORMAT_R32G32B32A32_SINT)
            } else {
                None
            },
            ScalarKind::Uint => if count == 1 {
                Some(FORMAT_R32_UINT)
            } else if count == 2 {
                Some(FORMAT_R32G32_UINT)
            } else if count == 3 {
                Some(FORMAT_R32G32B32_UINT)
            } else if count == 4 {
                Some(FORMAT_R32G32B32A32_UINT)
            } else {
                None
            },
        }
    }

    pub fn descriptor_type(&self, storage_class: u32, pointee: u32) -> (r: Option<i32>)
        ensures
            r == self@.descriptor_type_spec(storage_class, pointee),
    {
        if storage_class == STORAGE_CLASS_UNIFORM_CONSTANT {
            match self.type_of(pointee) {
                Some(TypeInfo::Image { dim, sampled }) => Some(
                    if dim == DIM_SUBPASS_DATA {
                        DESCRIPTOR_TYPE_INPUT_ATTACHMENT
                    } else if dim == DIM_BUFFER && sampled == 1 {
                        DESCRIPTOR_TYPE_UNIFORM_TEXEL_BUFFER
                    } else if dim == DIM_BUFFER {
                        DESCRIPTOR_TYPE_STORAGE_TEXEL_BUFFER
                    } else if sampled == 1 {
                        DESCRIPTOR_TYPE_SAMPLED_IMAGE
                    } else {
                        DESCRIPTOR_TYPE_STORAGE_IMAGE
                    },
                ),
                Some(TypeInfo::Sampler) => Some(DESCRIPTOR_TYPE_SAMPLER),
                Some(TypeInfo::SampledImage) => Some(DESCRIPTOR_TYPE_COMBINED_IMAGE_SAMPLER),
                Some(TypeInfo::AccelerationStructure) => Some(DESCRIPTOR_TYPE_ACCELERATION_STRUCTURE),
                _ => None,
            }
        } else if storage_class == STORAGE_CLASS_UNIFORM {
            Some(
                if self.has_decoration(pointee, DECORATION_BUFFER_BLOCK) {
                    DESCRIPTOR_TYPE_STORAGE_BUFFER
                } else {
                    DESCRIPTOR_TYPE_UNIFORM_BUFFER
                },
            )
        } else if storage_class == STORAGE_CLASS_STORAGE_BUFFER {
            Some(DESCRIPTOR_TYPE_STORAGE_BUFFER)
        } else {
            None
        }
    }

    pub fn type_constraints(&self, ty: u32, depth: u32) -> (r: (bool, bool))
        ensures
            r == self@.type_constraints_spec(ty, depth as int),
        decreases 65 - depth,
    {
        if depth > MAX_TYPE_DEPTH {
            return (false, false);
        }
        let nested = match self.type_of(ty) {
            Some(TypeInfo::Pointer { pointee }) => self.type_constraints(pointee, depth + 1),
            Some(TypeInfo::Array { element, .. }) => self.type_constraints(element, depth + 1),
            Some(TypeInfo::RuntimeArray { element }) => self.type_constraints(element, depth + 1),
            _ => (false, false),
        };
        (
            self.has_decoration(ty, DECORATION_NON_READABLE) || nested.0,
            self.has_decoration(ty, DECORATION_NON_WRITABLE) || nested.1,
        )
    }

    pub fn type_carries_provenance(&self, ty: u32, depth: u32) -> (r: bool)
        ensures
            r == self@.type_carries_provenance_spec(ty, depth as int),
        decreases 65 - depth,
    {
        if depth > MAX_TYPE_DEPTH {
            return false;
        }
        match self.type_of(ty) {
            Some(TypeInfo::Pointer { .. }) | Some(TypeInfo::Image { .. }) | Some(TypeInfo::Sampler) | Some(
                TypeInfo::SampledImage,
            ) | Some(TypeInfo::AccelerationStructure) => true,
            Some(TypeInfo::Array { element, .. }) => self.type_carries_provenance(element, depth + 1),
            Some(TypeInfo::RuntimeArray { element }) => self.type_carries_provenance(element, depth + 1),
            _ => false,
        }
    }

    pub fn value_carries_provenance(&self, value: u32) -> (r: bool)
        ensures
            r == self@.value_carries_provenance_spec(value),
    {
        match self.value_type(value) {
            Some(ty) => self.type_carries_provenance(ty, 0),
            None => false,
        }
    }

    pub fn value_is_opaque_handle(&self, value: u32) -> (r: bool)
        ensures
            r == self@.value_is_opaque_handle_spec(value),
    {
        match self.value_type(value) {
            Some(ty) => match self.type_of(ty) {
                Some(TypeInfo::Image { .. }) | Some(TypeInfo::Sampler) | Some(TypeInfo::SampledImage) | Some(
                    TypeInfo::AccelerationStructure,
                ) => true,
                _ => false,
            },
            None => false,
        }
    }

    fn pointee_chain_exec(&self, ty: u32) -> (r: u32)
        ensures
            r == pointee_chain(self@, ty, MAX_TYPE_DEPTH as nat),
    {
        let mut current = ty;
        let mut fuel: u32 = 0;
        while fuel < MAX_TYPE_DEPTH
            invariant
                fuel <= MAX_TYPE_DEPTH,
                pointee_chain(self@, current, (MAX_TYPE_DEPTH - fuel) as nat) == pointee_chain(
                    self@,
                    ty,
                    MAX_TYPE_DEPTH as nat,
                ),
            decreases MAX_TYPE_DEPTH - fuel,
        {
            match self.type_of(current) {
                Some(TypeInfo::Pointer { pointee }) => current = pointee,
                _ => return current,
            }
            fuel = fuel + 1;
        }
        current
    }

    fn chain_step_exec(&self, ty: u32, index: u32) -> (r: (u32, (bool, bool)))
        ensures
            r == self@.chain_step(ty, index),
    {
        let ty = self.pointee_chain_exec(ty);
        match self.type_of(ty) {
            Some(TypeInfo::Struct { at }) => match self.constant(index) {
                Some(member) => if (member as usize) < self.member_count(at) {
                    let member_type = self.member_type(at, member as usize);
                    let nested = self.type_constraints(member_type, 0);
                    (
                        member_type,
                        (
                            self.has_member_decoration(ty, member, DECORATION_NON_READABLE) || nested.0,
                            self.has_member_decoration(ty, member, DECORATION_NON_WRITABLE) || nested.1,
                        ),
                    )
                } else {
                    (ty, (false, false))
                },
                None => (ty, (false, false)),
            },
            Some(TypeInfo::Array { element, .. }) => (element, (false, false)),
            Some(TypeInfo::RuntimeArray { element }) => (element, (false, false)),
            Some(TypeInfo::Vector { component, .. }) => (component, (false, false)),
            Some(TypeInfo::Matrix { column, .. }) => (column, (false, false)),
            _ => (ty, (false, false)),
        }
    }

    /// The decorations against reading and writing an access chain from `base` through
    /// `operands[first..]` passes.
    pub fn access_chain_constraints(&self, base: u32, operands: &Vec<u32>, first: usize) -> (r: (bool, bool))
        ensures
            r == self@.access_chain_constraints_spec(
                base,
                if first <= operands@.len() { operands@.skip(first as int) } else { Seq::empty() },
            ),
    {
        let ghost indices = if first <= operands@.len() { operands@.skip(first as int) } else { Seq::<u32>::empty() };
        let mut ty = match self.value_type(base) {
            Some(ty) => ty,
            None => return (false, false),
        };
        let mut found = (false, false);
        if first > operands.len() {
            return (false, false);
        }
        let mut k = first;
        while k < operands.len()
            invariant
                first <= k <= operands@.len(),
                indices == operands@.skip(first as int),
                self@.chain_spec(ty, operands@.skip(k as int), found) == self@.chain_spec(
                    self@.value_type_spec(base).unwrap(),
                    indices,
                    (false, false),
                ),
            decreases operands@.len() - k,
        {
            let (next, step) = self.chain_step_exec(ty, operands[k]);
            proof {
                assert(operands@.skip(k as int)[0] == operands@[k as int]);
                assert(operands@.skip(k as int).skip(1) =~= operands@.skip(k + 1));
            }
            found = (found.0 || step.0, found.1 || step.1);
            ty = next;
            k = k + 1;
        }
        proof {
            assert(operands@.skip(k as int).len() == 0);
        }
        found
    }
}

/// Why a module cannot be reflected.
#[derive(Debug, Clone, Copy, PartialEq, Eq, Structural)]
pub enum ReflectError {
    /// The words are not a module reflection can read.
    Malformed,
    /// The module declares no entry point, or more than one.
    EntryPointCount,
    /// The entry point runs at a stage pipelines are not built for.
    UnsupportedExecutionModel,
    /// An instruction reaches a descriptor in a way its type or decorations forbid, or in a
    /// way reflection cannot follow.
    DescriptorMisuse,
}

/// What an instruction does through a descriptor.
#[derive(Debug, Clone, Copy, PartialEq, Eq, Structural)]
pub enum DescriptorOperation {
    MemoryRead,
    MemoryWrite,
    ImageRead,
    ImageWrite,
    AccelerationStructureRead,
}

/// The access an operation through a descriptor of `descriptor_type` is at `stage`, or `None`
/// where that type of descriptor cannot be reached that way.
pub open spec fn operation_access_spec(descriptor_type: i32, operation: DescriptorOperation, stage: u32) -> Option<u32> {
    let storage = descriptor_type == DESCRIPTOR_TYPE_STORAGE_BUFFER || descriptor_type == DESCRIPTOR_TYPE_STORAGE_IMAGE
        || descriptor_type == DESCRIPTOR_TYPE_STORAGE_TEXEL_BUFFER;
    match operation {
        DescriptorOperation::MemoryRead => if descriptor_type == DESCRIPTOR_TYPE_UNIFORM_BUFFER {
            Some(uniform_by_spec(stage))
        } else if storage {
            Some(shader_read_by_spec(stage))
        } else {
            None
        },
        DescriptorOperation::MemoryWrite => if storage {
            Some(shader_write_by_spec(stage))
        } else {
            None
        },
        DescriptorOperation::ImageRead => if descriptor_type == DESCRIPTOR_TYPE_SAMPLER {
            Some(0)
        } else if descriptor_type == DESCRIPTOR_TYPE_SAMPLED_IMAGE || descriptor_type
            == DESCRIPTOR_TYPE_COMBINED_IMAGE_SAMPLER || descriptor_type == DESCRIPTOR_TYPE_UNIFORM_TEXEL_BUFFER {
            Some(sampled_by_spec(stage))
        } else if descriptor_type == DESCRIPTOR_TYPE_STORAGE_IMAGE || descriptor_type
            == DESCRIPTOR_TYPE_STORAGE_TEXEL_BUFFER {
            Some(shader_read_by_spec(stage))
        } else if descriptor_type == DESCRIPTOR_TYPE_INPUT_ATTACHMENT {
            Some(ACCESS_INPUT_ATTACHMENT_READ)
        } else {
            None
        },
        DescriptorOperation::ImageWrite => if descriptor_type == DESCRIPTOR_TYPE_SAMPLER {
            Some(0)
        } else if descriptor_type == DESCRIPTOR_TYPE_STORAGE_IMAGE || descriptor_type
            == DESCRIPTOR_TYPE_STORAGE_TEXEL_BUFFER {
            Some(shader_write_by_spec(stage))
        } else {
            None
        },
        DescriptorOperation::AccelerationStructureRead => if descriptor_type == DESCRIPTOR_TYPE_ACCELERATION_STRUCTURE {
            Some(acceleration_structure_read_by_spec(stage))
        } else {
            None
        },
    }
}

/// Every access some operation through a descriptor of `descriptor_type` is at `stage`.
pub open spec fn allowed_access(descriptor_type: i32, stage: u32) -> u32 {
    operation_access_spec(descriptor_type, DescriptorOperation::MemoryRead, stage).unwrap_or(0)
        | operation_access_spec(descriptor_type, DescriptorOperation::MemoryWrite, stage).unwrap_or(0)
        | operation_access_spec(descriptor_type, DescriptorOperation::ImageRead, stage).unwrap_or(0)
        | operation_access_spec(descriptor_type, DescriptorOperation::ImageWrite, stage).unwrap_or(0)
        | operation_access_spec(descriptor_type, DescriptorOperation::AccelerationStructureRead, stage).unwrap_or(0)
}

/// Whether `operation` reads what it reaches; the others write it.
pub open spec fn operation_reads(operation: DescriptorOperation) -> bool {
    !(operation is MemoryWrite || operation is ImageWrite)
}

pub fn operation_access(descriptor_type: i32, operation: DescriptorOperation, stage: u32) -> (r: Option<Access>)
    ensures
        match operation_access_spec(descriptor_type, operation, stage) {
            Some(bits) => r == Some(Access(bits)),
            None => r is None,
        },
{
    let storage = descriptor_type == DESCRIPTOR_TYPE_STORAGE_BUFFER || descriptor_type == DESCRIPTOR_TYPE_STORAGE_IMAGE
        || descriptor_type == DESCRIPTOR_TYPE_STORAGE_TEXEL_BUFFER;
    match operation {
        DescriptorOperation::MemoryRead => if descriptor_type == DESCRIPTOR_TYPE_UNIFORM_BUFFER {
            Some(Access::uniform_by(stage))
        } else if storage {
            Some(Access::shader_read_by(stage))
        } else {
            None
        },
        DescriptorOperation::MemoryWrite => if storage {
            Some(Access::shader_write_by(stage))
        } else {
            None
        },
        DescriptorOperation::ImageRead => if descriptor_type == DESCRIPTOR_TYPE_SAMPLER {
            Some(Access(0))
        } else if descriptor_type == DESCRIPTOR_TYPE_SAMPLED_IMAGE || descriptor_type
            == DESCRIPTOR_TYPE_COMBINED_IMAGE_SAMPLER || descriptor_type == DESCRIPTOR_TYPE_UNIFORM_TEXEL_BUFFER {
            Some(Access::sampled_by(stage))
        } else if descriptor_type == DESCRIPTOR_TYPE_STORAGE_IMAGE || descriptor_type
            == DESCRIPTOR_TYPE_STORAGE_TEXEL_BUFFER {
            Some(Access::shader_read_by(stage))
        } else if descriptor_type == DESCRIPTOR_TYPE_INPUT_ATTACHMENT {
            Some(Access(ACCESS_INPUT_ATTACHMENT_READ))
        } else {
            None
        },
        DescriptorOperation::ImageWrite => if descriptor_type == DESCRIPTOR_TYPE_SAMPLER {
            Some(Access(0))
        } else if descriptor_type == DESCRIPTOR_TYPE_STORAGE_IMAGE || descriptor_type
            == DESCRIPTOR_TYPE_STORAGE_TEXEL_BUFFER {
            Some(Access::shader_write_by(stage))
        } else {
            None
        },
        DescriptorOperation::AccelerationStructureRead => if descriptor_type == DESCRIPTOR_TYPE_ACCELERATION_STRUCTURE {
            Some(Access::acceleration_structure_read_by(stage))
        } else {
            None
        },
    }
}

/// The raw stage flag of an execution model, for the stages pipelines are built for.
pub open spec fn stage_of_spec(model: u32) -> Option<u32> {
    if model == 0 {
        Some(STAGE_VERTEX)
    } else if model == 1 {
        Some(0x2)
    } else if model == 2 {
        Some(0x4)
    } else if model == 3 {
        Some(0x8)
    } else if model == 4 {
        Some(STAGE_FRAGMENT)
    } else if model == 5 {
        Some(STAGE_COMPUTE)
    } else {
        None
    }
}

pub fn stage_from_execution_model(model: u32) -> (r: Option<u32>)
    ensures
        r == stage_of_spec(model),
{
    if model == 0 {
        Some(STAGE_VERTEX)
    } else if model == 1 {
        Some(0x2)
    } else if model == 2 {
        Some(0x4)
    } else if model == 3 {
        Some(0x8)
    } else if model == 4 {
        Some(STAGE_FRAGMENT)
    } else if model == 5 {
        Some(STAGE_COMPUTE)
    } else {
        None
    }
}

/// A descriptor variable reflection found, with the binding it fills.
#[derive(Debug, Clone, Copy, PartialEq, Eq, Structural)]
pub struct PendingDescriptor {
    pub variable: u32,
    pub pointer_type: u32,
    pub binding: DescriptorBinding,
}

/// The descriptor variable a value may stand for, and whether the way it was reached forbids
/// reading or writing through it.
#[derive(Debug, Clone, Copy, PartialEq, Eq, Structural)]
pub struct Origin {
    pub variable: u32,
    pub non_readable: bool,
    pub non_writable: bool,
}

/// Where the first descriptor for `variable` stands in `descriptors`.
pub open spec fn descriptor_index(descriptors: Seq<PendingDescriptor>, variable: u32) -> Option<int>
    decreases descriptors.len(),
{
    if descriptors.len() == 0 {
        None
    } else {
        match descriptor_index(descriptors.drop_last(), variable) {
            Some(d) => Some(d),
            None => if descriptors.last().variable == variable { Some(descriptors.len() - 1) } else { None },
        }
    }
}

proof fn lemma_descriptor_index_bounds(descriptors: Seq<PendingDescriptor>, variable: u32)
    ensures
        descriptor_index(descriptors, variable) matches Some(d) ==> 0 <= d < descriptors.len()
            && descriptors[d].variable == variable,
    decreases descriptors.len(),
{
    if descriptors.len() > 0 {
        lemma_descriptor_index_bounds(descriptors.drop_last(), variable);
    }
}

fn find_descriptor(descriptors: &Vec<PendingDescriptor>, variable: u32) -> (r: Option<usize>)
    ensures
        r matches Some(d) ==> descriptor_index(descriptors@, variable) == Some(d as int),
        r is None ==> descriptor_index(descriptors@, variable) is None,
        r matches Some(d) ==> d < descriptors@.len() && descriptors@[d as int].variable == variable,
{
    let mut d: usize = 0;
    while d < descriptors.len()
        invariant
            d <= descriptors@.len(),
            descriptor_index(descriptors@.take(d as int), variable) is None,
        decreases descriptors@.len() - d,
    {
        proof {
            assert(descriptors@.take(d + 1).drop_last() =~= descriptors@.take(d as int));
        }
        if descriptors[d].variable == variable {
            proof {
                lemma_descriptor_prefix(descriptors@, d + 1, variable);
            }
            return Some(d);
        }
        d = d + 1;
    }
    proof {
        assert(descriptors@.take(d as int) =~= descriptors@);
    }
    None
}

/// Once a prefix finds `variable`, the whole sequence finds it at the same place.
proof fn lemma_descriptor_prefix(descriptors: Seq<PendingDescriptor>, n: int, variable: u32)
    requires
        0 <= n <= descriptors.len(),
        descriptor_index(descriptors.take(n), variable) is Some,
    ensures
        descriptor_index(descriptors, variable) == descriptor_index(descriptors.take(n), variable),
    decreases descriptors.len() - n,
{
    if n < descriptors.len() {
        assert(descriptors.take(n + 1).drop_last() =~= descriptors.take(n));
        lemma_descriptor_prefix(descriptors, n + 1, variable);
    } else {
        assert(descriptors.take(n) =~= descriptors);
    }
}

/// Some origin `prov` holds for `value` names descriptor `d`.
pub open spec fn reaches(prov: Seq<(u32, Origin)>, value: u32, descriptors: Seq<PendingDescriptor>, d: int) -> bool {
    exists|e: int| 0 <= e < prov.len() && (#[trigger] prov[e]).0 == value && descriptor_index(descriptors, prov[e].1.variable) == Some(d)
}

/// `operation` through the origin `origin` of a value is forbidden: by a decoration on the way
/// to it, or by the type of the descriptor it names.
pub open spec fn forbids(origin: Origin, descriptors: Seq<PendingDescriptor>, operation: DescriptorOperation, stage: u32) -> bool {
    match descriptor_index(descriptors, origin.variable) {
        Some(d) => {
            ||| operation_reads(operation) && origin.non_readable
            ||| !operation_reads(operation) && origin.non_writable
            ||| operation_access_spec(descriptors[d].binding.descriptor_type, operation, stage) is None
        },
        None => false,
    }
}

/// Some origin `prov` holds for `value` forbids `operation`.
pub open spec fn misuse(
    prov: Seq<(u32, Origin)>,
    value: u32,
    descriptors: Seq<PendingDescriptor>,
    operation: DescriptorOperation,
    stage: u32,
) -> bool {
    exists|e: int| 0 <= e < prov.len() && (#[trigger] prov[e]).0 == value && forbids(prov[e].1, descriptors, operation, stage)
}

/// What `operation` through `value` adds to the access of descriptor `d`.
pub open spec fn recorded(
    prov: Seq<(u32, Origin)>,
    value: u32,
    descriptors: Seq<PendingDescriptor>,
    operation: DescriptorOperation,
    stage: u32,
    d: int,
) -> u32 {
    if reaches(prov, value, descriptors, d) {
        operation_access_spec(descriptors[d].binding.descriptor_type, operation, stage).unwrap_or(0)
    } else {
        0
    }
}

proof fn lemma_or_again(x: u32, y: u32)
    ensures
        (x | y) | y == x | y,
        x | 0u32 == x,
{
    assert((x | y) | y == x | y) by (bit_vector);
    assert(x | 0u32 == x) by (bit_vector);
}

/// Adds what `operation` through `value` does to each descriptor `value` may stand for.
/// Fails, leaving what was added so far, where one of them forbids it.
fn record_descriptor_operation(
    value: u32,
    operation: DescriptorOperation,
    stage: u32,
    prov: &Vec<(u32, Origin)>,
    descriptors: &Vec<PendingDescriptor>,
    accesses: &mut Vec<Access>,
) -> (r: Result<(), ReflectError>)
    requires
        old(accesses)@.len() == descriptors@.len(),
    ensures
        final(accesses)@.len() == descriptors@.len(),
        r is Err <==> misuse(prov@, value, descriptors@, operation, stage),
        r is Err ==> r == Err::<(), ReflectError>(ReflectError::DescriptorMisuse),
        r is Ok ==> forall|d: int|
            0 <= d < descriptors@.len() ==> (#[trigger] final(accesses)@[d]).0 == old(accesses)@[d].0 | recorded(
                prov@,
                value,
                descriptors@,
                operation,
                stage,
                d,
            ),
{
    let ghost start = accesses@;
    let mut e: usize = 0;
    proof {
        assert forall|d: int| 0 <= d < descriptors@.len() implies (#[trigger] accesses@[d]).0 == start[d].0 | recorded(
            prov@.take(0),
            value,
            descriptors@,
            operation,
            stage,
            d,
        ) by {
            lemma_or_again(start[d].0, 0);
        }
    }
    while e < prov.len()
        invariant
            e <= prov@.len(),
            accesses@.len() == descriptors@.len(),
            start.len() == descriptors@.len(),
            !misuse(prov@.take(e as int), value, descriptors@, operation, stage),
            forall|d: int|
                0 <= d < descriptors@.len() ==> (#[trigger] accesses@[d]).0 == start[d].0 | recorded(
                    prov@.take(e as int),
                    value,
                    descriptors@,
                    operation,
                    stage,
                    d,
                ),
        decreases prov@.len() - e,
    {
        let ghost before = accesses@;
        let ghost prefix = prov@.take(e as int);
        let ghost next = prov@.take(e + 1);
        assert(next.drop_last() =~= prefix);
        assert(next.last() == prov@[e as int]);
        assert forall|q: int| 0 <= q < prefix.len() implies next[q] == #[trigger] prefix[q] by {}
        let (v, origin) = prov[e];
        if v == value {
            if let Some(d) = find_descriptor(descriptors, origin.variable) {
                let reads = !(matches!(operation, DescriptorOperation::MemoryWrite) || matches!(
                    operation,
                    DescriptorOperation::ImageWrite
                ));
                if (reads && origin.non_readable) || (!reads && origin.non_writable) {
                    proof {
                        assert(next[e as int].0 == value && forbids(next[e as int].1, descriptors@, operation, stage));
                        lemma_misuse_grows(prov@, e as int + 1, value, descriptors@, operation, stage);
                    }
                    return Err(ReflectError::DescriptorMisuse);
                }
                let bits = match operation_access(descriptors[d].binding.descriptor_type, operation, stage) {
                    Some(bits) => bits,
                    None => {
                        proof {
                            assert(next[e as int].0 == value && forbids(next[e as int].1, descriptors@, operation, stage));
                            lemma_misuse_grows(prov@, e as int + 1, value, descriptors@, operation, stage);
                        }
                        return Err(ReflectError::DescriptorMisuse);
                    },
                };
                let widened = accesses[d].union(bits);
                accesses.set(d, widened);
                proof {
                    assert forall|q: int| 0 <= q < descriptors@.len() implies (#[trigger] accesses@[q]).0 == start[q].0
                        | recorded(next, value, descriptors@, operation, stage, q) by {
                        if q == d {
                            assert(next[e as int].0 == value);
                            assert(reaches(next, value, descriptors@, q));
                            lemma_or_again(start[q].0, bits.0);
                            if reaches(prefix, value, descriptors@, q) {
                                let w = choose|w: int| 0 <= w < prefix.len() && (#[trigger] prefix[w]).0 == value
                                    && descriptor_index(descriptors@, prefix[w].1.variable) == Some(q);
                                assert(next[w] == prefix[w]);
                            }
                        } else {
                            assert(accesses@[q] == before[q]);
                            lemma_reaches_step(prov@, e as int, value, descriptors@, q);
                        }
                    }
                    lemma_no_misuse_step(prov@, e as int, value, descriptors@, operation, stage);
                }
            } else {
                proof {
                    assert forall|q: int| 0 <= q < descriptors@.len() implies (#[trigger] accesses@[q]).0 == start[q].0
                        | recorded(next, value, descriptors@, operation, stage, q) by {
                        lemma_reaches_step(prov@, e as int, value, descriptors@, q);
                    }
                    lemma_no_misuse_step(prov@, e as int, value, descriptors@, operation, stage);
                }
            }
        } else {
            proof {
                assert forall|q: int| 0 <= q < descriptors@.len() implies (#[trigger] accesses@[q]).0 == start[q].0
                    | recorded(next, value, descriptors@, operation, stage, q) by {
                    lemma_reaches_step(prov@, e as int, value, descriptors@, q);
                }
                lemma_no_misuse_step(prov@, e as int, value, descriptors@, operation, stage);
            }
        }
        e = e + 1;
    }
    proof {
        assert(prov@.take(e as int) =~= prov@);
    }
    Ok(())
}

/// A misuse among the first entries stays one among more of them.
proof fn lemma_misuse_grows(
    prov: Seq<(u32, Origin)>,
    n: int,
    value: u32,
    descriptors: Seq<PendingDescriptor>,
    operation: DescriptorOperation,
    stage: u32,
)
    requires
        0 < n <= prov.len(),
        prov[n - 1].0 == value && forbids(prov[n - 1].1, descriptors, operation, stage),
    ensures
        misuse(prov, value, descriptors, operation, stage),
{
    assert(prov[n - 1].0 == value);
}

/// Taking in entry `e` changes what reaches `d` only where that entry names `d` for `value`.
proof fn lemma_reaches_step(prov: Seq<(u32, Origin)>, e: int, value: u32, descriptors: Seq<PendingDescriptor>, d: int)
    requires
        0 <= e < prov.len(),
    ensures
        reaches(prov.take(e + 1), value, descriptors, d) == (reaches(prov.take(e), value, descriptors, d) || (prov[e].0
            == value && descriptor_index(descriptors, prov[e].1.variable) == Some(d))),
{
    let next = prov.take(e + 1);
    let prefix = prov.take(e);
    if reaches(next, value, descriptors, d) {
        let w = choose|w: int| 0 <= w < next.len() && (#[trigger] next[w]).0 == value && descriptor_index(descriptors, next[w].1.variable) == Some(d);
        if w < e {
            assert(prefix[w] == next[w]);
        }
    }
    if reaches(prefix, value, descriptors, d) {
        let w = choose|w: int| 0 <= w < prefix.len() && (#[trigger] prefix[w]).0 == value && descriptor_index(descriptors, prefix[w].1.variable) == Some(d);
        assert(next[w] == prefix[w]);
    }
    if prov[e].0 == value && descriptor_index(descriptors, prov[e].1.variable) == Some(d) {
        assert(next[e] == prov[e]);
    }
}

/// Taking in an entry that does not forbid the operation adds no misuse.
proof fn lemma_no_misuse_step(
    prov: Seq<(u32, Origin)>,
    e: int,
    value: u32,
    descriptors: Seq<PendingDescriptor>,
    operation: DescriptorOperation,
    stage: u32,
)
    requires
        0 <= e < prov.len(),
        !misuse(prov.take(e), value, descriptors, operation, stage),
        !(prov[e].0 == value && forbids(prov[e].1, descriptors, operation, stage)),
    ensures
        !misuse(prov.take(e + 1), value, descriptors, operation, stage),
{
    let next = prov.take(e + 1);
    let prefix = prov.take(e);
    if misuse(next, value, descriptors, operation, stage) {
        let w = choose|w: int| 0 <= w < next.len() && (#[trigger] next[w]).0 == value && forbids(next[w].1, descriptors, operation, stage);
        if w < e {
            assert(prefix[w] == next[w]);
        } else {
            assert(next[w] == prov[e]);
        }
    }
}

/// Distinct integers that all lie in `0..n` number at most `n`.
proof fn lemma_distinct_indices_fit(s: Seq<int>, n: int)
    requires
        n >= 0,
        s.no_duplicates(),
        forall|i: int| 0 <= i < s.len() ==> 0 <= #[trigger] s[i] < n,
    ensures
        s.len() <= n,
{
    s.unique_seq_to_set();
    vstd::set_lib::lemma_int_range(0, n);
    assert forall|x: int| #[trigger] s.to_set().contains(x) implies vstd::set_lib::set_int_range(0, n).contains(x) by {
        assert(s.contains(x));
        let i = choose|i: int| 0 <= i < s.len() && s[i] == x;
        assert(0 <= s[i] < n);
    }
    vstd::set_lib::lemma_len_subset(s.to_set(), vstd::set_lib::set_int_range(0, n));
}

impl Parsed {
    /// The functions the static call tree from `entry` reaches: `entry` first, then each
    /// function after one that calls it, and every function a listed one calls listed too.
    pub fn reachable_functions(&self, entry: u32) -> (r: Vec<u32>)
        ensures
            r@.len() >= 1,
            r@[0] == entry,
            r@.no_duplicates(),
            forall|j: int| 1 <= j < r@.len() ==> #[trigger] self@.called_earlier(r@, j),
            forall|i: int, c: int, callee: u32|
                0 <= c < r@.len() && #[trigger] self@.calls(i, r@[c], callee) ==> r@.contains(callee),
    {
        let count = self.instructions.len();
        let mut reachable: Vec<u32> = Vec::new();
        reachable.push(entry);
        let ghost mut src: Seq<int> = Seq::empty();
        let mut k: usize = 0;
        while k < reachable.len()
            invariant
                count == self.instructions@.len(),
                k <= reachable@.len(),
                reachable@.len() >= 1,
                reachable@[0] == entry,
                reachable@.no_duplicates(),
                src.len() + 1 == reachable@.len(),
                src.no_duplicates(),
                forall|j: int| 0 <= j < src.len() ==> 0 <= #[trigger] src[j] < count,
                forall|j: int|
                    0 <= j < src.len() ==> self.instructions@[src[j]].operands@.len() >= 3
                        && self.instructions@[#[trigger] src[j]].operands@[2] == reachable@[j + 1],
                forall|j: int| 1 <= j < reachable@.len() ==> #[trigger] self@.called_earlier(reachable@, j),
                forall|i: int, c: int, callee: u32|
                    0 <= c < k && #[trigger] self@.calls(i, reachable@[c], callee) ==> reachable@.contains(callee),
            decreases count + 1 - reachable@.len(), reachable@.len() - k,
        {
            proof {
                lemma_distinct_indices_fit(src, count as int);
            }
            let caller = reachable[k];
            let ghost len_before = reachable@.len();
            let mut i: usize = 0;
            while i < count
                invariant
                    count == self.instructions@.len(),
                    k < reachable@.len(),
                    len_before <= reachable@.len(),
                    reachable@[k as int] == caller,
                    reachable@.len() >= 1,
                    reachable@[0] == entry,
                    reachable@.no_duplicates(),
                    src.len() + 1 == reachable@.len(),
                    src.no_duplicates(),
                    forall|j: int| 0 <= j < src.len() ==> 0 <= #[trigger] src[j] < count,
                    forall|j: int|
                        0 <= j < src.len() ==> self.instructions@[src[j]].operands@.len() >= 3
                            && self.instructions@[#[trigger] src[j]].operands@[2] == reachable@[j + 1],
                    forall|j: int| 1 <= j < reachable@.len() ==> #[trigger] self@.called_earlier(reachable@, j),
                    forall|q: int, c: int, callee: u32|
                        0 <= c < k && #[trigger] self@.calls(q, reachable@[c], callee) ==> reachable@.contains(callee),
                    forall|q: int, callee: u32|
                        0 <= q < i && #[trigger] self@.calls(q, caller, callee) ==> reachable@.contains(callee),
                    i <= count,
                decreases count - i,
            {
                let instruction = &self.instructions[i];
                if instruction.opcode == OP_FUNCTION_CALL && instruction.function == Some(caller)
                    && instruction.operands.len() >= 3 {
                    let callee = instruction.operands[2];
                    let mut known = false;
                    let mut j: usize = 0;
                    while j < reachable.len()
                        invariant
                            j <= reachable@.len(),
                            known == exists|w: int| 0 <= w < j && reachable@[w] == callee,
                        decreases reachable@.len() - j,
                    {
                        if reachable[j] == callee {
                            known = true;
                        }
                        j = j + 1;
                    }
                    if !known {
                        let ghost old_reachable = reachable@;
                        proof {
                            assert(self@.calls(i as int, caller, callee));
                            if src.contains(i as int) {
                                let w = choose|w: int| 0 <= w < src.len() && src[w] == i as int;
                                assert(old_reachable[w + 1] == callee);
                                assert(old_reachable.contains(callee));
                            }
                        }
                        reachable.push(callee);
                        proof {
                            assert forall|a: int, b: int| 0 <= a < b < reachable@.len() implies reachable@[a] != reachable@[b] by {
                                if b == reachable@.len() - 1 {
                                    assert(reachable@[a] == old_reachable[a]);
                                    if reachable@[a] == callee {
                                        assert(old_reachable.contains(callee));
                                    }
                                }
                            }
                            src = src.push(i as int);
                            assert forall|j: int| 1 <= j < reachable@.len() implies #[trigger] self@.called_earlier(reachable@, j) by {
                                if j == reachable@.len() - 1 {
                                    assert(self@.calls(i as int, reachable@[k as int], reachable@[j]));
                                } else {
                                    assert(self@.called_earlier(old_reachable, j));
                                    let (q, c) = choose|q: int, c: int| 0 <= c < j && #[trigger] self@.calls(q, old_reachable[c], old_reachable[j]);
                                    assert(self@.calls(q, reachable@[c], reachable@[j]));
                                }
                            }
                            assert forall|q: int, c: int, g: u32|
                                0 <= c < k && #[trigger] self@.calls(q, reachable@[c], g) implies reachable@.contains(g) by {
                                assert(reachable@[c] == old_reachable[c]);
                                assert(old_reachable.contains(g));
                                let w = choose|w: int| 0 <= w < old_reachable.len() && old_reachable[w] == g;
                                assert(reachable@[w] == g);
                            }
                            assert forall|q: int, g: u32|
                                0 <= q < i + 1 && #[trigger] self@.calls(q, caller, g) implies reachable@.contains(g) by {
                                if q == i {
                                    assert(reachable@[reachable@.len() - 1] == callee);
                                } else {
                                    let w = choose|w: int| 0 <= w < old_reachable.len() && old_reachable[w] == g;
                                    assert(reachable@[w] == g);
                                }
                            }
                        }
                    }
                }
                i = i + 1;
            }
            proof {
                lemma_distinct_indices_fit(src, count as int);
            }
            k = k + 1;
        }
        reachable
    }
}

/// `value` may stand for some descriptor.
pub open spec fn has_provenance(prov: Seq<(u32, Origin)>, value: u32) -> bool {
    exists|e: int| 0 <= e < prov.len() && (#[trigger] prov[e]).0 == value
}

/// Every origin `prov` holds for `value`, in order, with the decorations `constraints` added.
pub open spec fn origins_of(prov: Seq<(u32, Origin)>, value: u32, constraints: (bool, bool)) -> Seq<Origin>
    decreases prov.len(),
{
    if prov.len() == 0 {
        Seq::empty()
    } else {
        let (v, origin) = prov.last();
        let rest = origins_of(prov.drop_last(), value, constraints);
        if v == value {
            rest.push(
                Origin {
                    variable: origin.variable,
                    non_readable: origin.non_readable || constraints.0,
                    non_writable: origin.non_writable || constraints.1,
                },
            )
        } else {
            rest
        }
    }
}

/// Appends to `out` every origin `prov` holds for `value`, with the decorations `constraints`
/// found on the way added to it.
fn push_origins(prov: &Vec<(u32, Origin)>, value: u32, constraints: (bool, bool), out: &mut Vec<Origin>)
    ensures
        final(out)@ == old(out)@ + origins_of(prov@, value, constraints),
        prov@.len() == 0 ==> final(out)@ == old(out)@,
{
    let mut e: usize = 0;
    while e < prov.len()
        invariant
            e <= prov@.len(),
            out@ == old(out)@ + origins_of(prov@.take(e as int), value, constraints),
        decreases prov@.len() - e,
    {
        proof {
            assert(prov@.take(e + 1).drop_last() =~= prov@.take(e as int));
        }
        let (v, origin) = prov[e];
        if v == value {
            out.push(
                Origin {
                    variable: origin.variable,
                    non_readable: origin.non_readable || constraints.0,
                    non_writable: origin.non_writable || constraints.1,
                },
            );
        }
        e = e + 1;
    }
    proof {
        assert(prov@.take(e as int) =~= prov@);
    }
}

fn holds(prov: &Vec<(u32, Origin)>, value: u32, origin: Origin) -> (r: bool)
    ensures
        r == prov@.contains((value, origin)),
{
    let mut e: usize = 0;
    while e < prov.len()
        invariant
            e <= prov@.len(),
            forall|q: int| 0 <= q < e ==> prov@[q] != (value, origin),
        decreases prov@.len() - e,
    {
        if prov[e].0 == value && prov[e].1 == origin {
            assert(prov@[e as int] == (value, origin));
            return true;
        }
        e = e + 1;
    }
    false
}

/// Adds each of `additions` to what `result` may stand for. Whether that added anything.
fn extend_origins(prov: &mut Vec<(u32, Origin)>, result: u32, additions: &Vec<Origin>) -> (changed: bool)
    ensures
        changed == (final(prov)@.len() > old(prov)@.len()),
        final(prov)@.len() >= old(prov)@.len(),
        final(prov)@.take(old(prov)@.len() as int) == old(prov)@,
        forall|a: int| 0 <= a < additions@.len() ==> final(prov)@.contains((result, #[trigger] additions@[a])),
        forall|k: int|
            old(prov)@.len() <= k < final(prov)@.len() ==> (#[trigger] final(prov)@[k]).0 == result
                && additions@.contains(final(prov)@[k].1) && !old(prov)@.contains(final(prov)@[k]),
        additions@.len() == 0 ==> final(prov)@ == old(prov)@,
{
    let start = prov.len();
    let mut a: usize = 0;
    while a < additions.len()
        invariant
            a <= additions@.len(),
            prov@.len() >= start,
            start == old(prov)@.len(),
            prov@.take(start as int) == old(prov)@,
            forall|b: int| 0 <= b < a ==> prov@.contains((result, #[trigger] additions@[b])),
            forall|k: int|
                start <= k < prov@.len() ==> (#[trigger] prov@[k]).0 == result && additions@.contains(prov@[k].1)
                    && !old(prov)@.contains(prov@[k]),
        decreases additions@.len() - a,
    {
        let origin = additions[a];
        let ghost before = prov@;
        if !holds(prov, result, origin) {
            prov.push((result, origin));
            proof {
                assert(prov@.take(start as int) =~= before.take(start as int));
                assert(prov@[prov@.len() - 1] == (result, origin));
                assert forall|b: int| 0 <= b < a implies prov@.contains((result, #[trigger] additions@[b])) by {
                    let q = choose|q: int| 0 <= q < before.len() && before[q] == (result, additions@[b]);
                    assert(prov@[q] == before[q]);
                }
                assert(!old(prov)@.contains((result, origin))) by {
                    if old(prov)@.contains((result, origin)) {
                        let q = choose|q: int| 0 <= q < old(prov)@.len() && old(prov)@[q] == (result, origin);
                        assert(before.take(start as int)[q] == before[q]);
                        assert(before.contains((result, origin)));
                    }
                }
                assert(additions@[a as int] == origin);
                assert forall|k: int|
                    start <= k < prov@.len() implies (#[trigger] prov@[k]).0 == result && additions@.contains(prov@[k].1)
                    && !old(prov)@.contains(prov@[k]) by {
                    if k < before.len() {
                        assert(prov@[k] == before[k]);
                    }
                }
            }
        }
        proof {
            assert(additions@[a as int] == origin);
            assert(prov@.contains((result, origin)));
        }
        a = a + 1;
    }
    proof {
        if additions@.len() == 0 {
            if prov@.len() > start {
                assert(additions@.contains(prov@[start as int].1));
            }
            assert(prov@ =~= prov@.take(start as int));
        }
    }
    prov.len() > start
}

/// Whether any of `operands[from..]` may stand for a descriptor.
fn touches_descriptor(prov: &Vec<(u32, Origin)>, operands: &Vec<u32>, from: usize) -> (r: bool)
    ensures
        r == exists|k: int| from <= k < operands@.len() && has_provenance(prov@, #[trigger] operands@[k]),
{
    let mut k = from;
    while k < operands.len()
        invariant
            from <= k,
            forall|q: int| from <= q < k ==> !has_provenance(prov@, #[trigger] operands@[q]),
        decreases operands@.len() - k,
    {
        let mut e: usize = 0;
        while e < prov.len()
            invariant
                e <= prov@.len(),
                from <= k < operands@.len(),
                forall|q: int| from <= q < k ==> !has_provenance(prov@, #[trigger] operands@[q]),
                forall|q: int| 0 <= q < e ==> prov@[q].0 != operands@[k as int],
            decreases prov@.len() - e,
        {
            if prov[e].0 == operands[k] {
                assert(has_provenance(prov@, operands@[k as int]));
                return true;
            }
            e = e + 1;
        }
        k = k + 1;
    }
    false
}

/// The opcodes that move a pointer or handle from their third operand to their result.
pub open spec fn forwards_operand(op: u32) -> bool {
    op == OP_LOAD || op == OP_IMAGE_TEXEL_POINTER || op == OP_COPY_OBJECT || op == OP_COPY_LOGICAL || op == OP_IMAGE
        || op == OP_BITCAST
}

/// The opcodes whose only dealings with a descriptor are what the analysis follows.
pub open spec fn passes_descriptors_on(op: u32) -> bool {
    ||| op == OP_FUNCTION || op == OP_NOP || op == OP_LINE || op == OP_FUNCTION_PARAMETER || op == OP_FUNCTION_END
    ||| op == OP_FUNCTION_CALL || op == OP_VARIABLE || op == OP_IMAGE_TEXEL_POINTER || op == OP_ACCESS_CHAIN
    ||| op == OP_IN_BOUNDS_ACCESS_CHAIN || op == OP_PTR_ACCESS_CHAIN || op == OP_IN_BOUNDS_PTR_ACCESS_CHAIN
    ||| op == OP_COPY_OBJECT || op == OP_COPY_LOGICAL || op == OP_SAMPLED_IMAGE || op == OP_IMAGE || op == OP_BITCAST
    ||| op == OP_SELECT || op == OP_PHI || op == OP_RETURN_VALUE
    ||| OP_VECTOR_EXTRACT_DYNAMIC <= op <= OP_COMPOSITE_INSERT
    ||| op == OP_TRANSPOSE || op == OP_LOOP_MERGE || op == OP_SELECTION_MERGE || op == OP_LABEL || op == OP_BRANCH
    ||| op == OP_BRANCH_CONDITIONAL || op == OP_SWITCH || op == OP_KILL || op == OP_RETURN || op == OP_UNREACHABLE
    ||| op == OP_NO_LINE
    ||| OP_IMAGE_QUERY_FORMAT <= op <= OP_IMAGE_QUERY_SAMPLES
}

fn passes_descriptors_on_exec(op: u32) -> (r: bool)
    ensures
        r == passes_descriptors_on(op),
{
    op == OP_FUNCTION || op == OP_NOP || op == OP_LINE || op == OP_FUNCTION_PARAMETER || op == OP_FUNCTION_END || op
        == OP_FUNCTION_CALL || op == OP_VARIABLE || op == OP_IMAGE_TEXEL_POINTER || op == OP_ACCESS_CHAIN || op
        == OP_IN_BOUNDS_ACCESS_CHAIN || op == OP_PTR_ACCESS_CHAIN || op == OP_IN_BOUNDS_PTR_ACCESS_CHAIN || op
        == OP_COPY_OBJECT || op == OP_COPY_LOGICAL || op == OP_SAMPLED_IMAGE || op == OP_IMAGE || op == OP_BITCAST || op
        == OP_SELECT || op == OP_PHI || op == OP_RETURN_VALUE || (OP_VECTOR_EXTRACT_DYNAMIC <= op && op
        <= OP_COMPOSITE_INSERT) || op == OP_TRANSPOSE || op == OP_LOOP_MERGE || op == OP_SELECTION_MERGE || op
        == OP_LABEL || op == OP_BRANCH || op == OP_BRANCH_CONDITIONAL || op == OP_SWITCH || op == OP_KILL || op
        == OP_RETURN || op == OP_UNREACHABLE || op == OP_NO_LINE || (OP_IMAGE_QUERY_FORMAT <= op && op
        <= OP_IMAGE_QUERY_SAMPLES)
}

fn contains_u32(values: &Vec<u32>, value: u32) -> (r: bool)
    ensures
        r == values@.contains(value),
{
    let mut i: usize = 0;
    while i < values.len()
        invariant
            i <= values@.len(),
            forall|q: int| 0 <= q < i ==> values@[q] != value,
        decreases values@.len() - i,
    {
        if values[i] == value {
            assert(values@[i as int] == value);
            return true;
        }
        i = i + 1;
    }
    false
}

proof fn lemma_or_within(a: u32, b: u32, m: u32)
    ensures
        a & !m == 0 && b & !m == 0 ==> (a | b) & !m == 0,
        b & !(b | m) == 0,
        b & !(m | b) == 0,
        a & !m == 0 ==> a & !(m | b) == 0 && a & !(b | m) == 0,
        0u32 & !m == 0,
{
    assert(a & !m == 0 && b & !m == 0 ==> (a | b) & !m == 0) by (bit_vector);
    assert(b & !(b | m) == 0) by (bit_vector);
    assert(b & !(m | b) == 0) by (bit_vector);
    assert(a & !m == 0 ==> a & !(m | b) == 0 && a & !(b | m) == 0) by (bit_vector);
    assert(0u32 & !m == 0) by (bit_vector);
}

/// What an operation can add to a descriptor stays within what some operation on its type
/// can be.
proof fn lemma_operation_within(descriptor_type: i32, operation: DescriptorOperation, stage: u32)
    ensures
        operation_access_spec(descriptor_type, operation, stage).unwrap_or(0) & !allowed_access(descriptor_type, stage) == 0,
{
    let m = operation_access_spec(descriptor_type, DescriptorOperation::MemoryRead, stage).unwrap_or(0);
    let w = operation_access_spec(descriptor_type, DescriptorOperation::MemoryWrite, stage).unwrap_or(0);
    let ir = operation_access_spec(descriptor_type, DescriptorOperation::ImageRead, stage).unwrap_or(0);
    let iw = operation_access_spec(descriptor_type, DescriptorOperation::ImageWrite, stage).unwrap_or(0);
    let a = operation_access_spec(descriptor_type, DescriptorOperation::AccelerationStructureRead, stage).unwrap_or(0);
    assert(m & !(m | w | ir | iw | a) == 0) by (bit_vector);
    assert(w & !(m | w | ir | iw | a) == 0) by (bit_vector);
    assert(ir & !(m | w | ir | iw | a) == 0) by (bit_vector);
    assert(iw & !(m | w | ir | iw | a) == 0) by (bit_vector);
    assert(a & !(m | w | ir | iw | a) == 0) by (bit_vector);
}

/// The accesses so far stay within what the descriptors' types allow.
pub open spec fn accesses_within(accesses: Seq<Access>, descriptors: Seq<PendingDescriptor>, stage: u32) -> bool {
    &&& accesses.len() == descriptors.len()
    &&& forall|d: int|
        0 <= d < accesses.len() ==> (#[trigger] accesses[d]).0 & !allowed_access(descriptors[d].binding.descriptor_type, stage)
            == 0
}

/// Records `operation` through `value`, keeping the accesses within what the types allow.
fn record(
    value: u32,
    operation: DescriptorOperation,
    stage: u32,
    prov: &Vec<(u32, Origin)>,
    descriptors: &Vec<PendingDescriptor>,
    accesses: &mut Vec<Access>,
) -> (r: Result<(), ReflectError>)
    requires
        accesses_within(old(accesses)@, descriptors@, stage),
    ensures
        r is Ok ==> accesses_within(final(accesses)@, descriptors@, stage),
        r is Err ==> r == Err::<(), ReflectError>(ReflectError::DescriptorMisuse),
        final(accesses)@.len() == descriptors@.len(),
        r is Err <==> misuse(prov@, value, descriptors@, operation, stage),
        r is Ok ==> forall|d: int|
            0 <= d < descriptors@.len() ==> (#[trigger] final(accesses)@[d]).0 == old(accesses)@[d].0 | recorded(
                prov@,
                value,
                descriptors@,
                operation,
                stage,
                d,
            ),
        r is Ok ==> accesses_grow(old(accesses)@, final(accesses)@),
        r is Ok ==> holds_op(final(accesses)@, prov@, value, descriptors@, operation, stage),
        r is Ok ==> forall|a: Seq<Access>| accesses_grow(a, old(accesses)@) ==> #[trigger] accesses_grow(a, final(accesses)@),
        r is Ok ==> forall|v: u32, o: DescriptorOperation|
            holds_op(old(accesses)@, prov@, v, descriptors@, o, stage) ==> #[trigger] holds_op(
                final(accesses)@,
                prov@,
                v,
                descriptors@,
                o,
                stage,
            ),
{
    let ghost start = accesses@;
    let r = record_descriptor_operation(value, operation, stage, prov, descriptors, accesses);
    if r.is_err() {
        return r;
    }
    proof {
        lemma_recorded_grows(start, accesses@, prov@, value, descriptors@, operation, stage);
        assert forall|a: Seq<Access>| accesses_grow(a, start) implies #[trigger] accesses_grow(a, accesses@) by {
            lemma_grow_trans(a, start, accesses@);
        }
        assert forall|v: u32, o: DescriptorOperation| holds_op(start, prov@, v, descriptors@, o, stage) implies #[trigger] holds_op(
            accesses@,
            prov@,
            v,
            descriptors@,
            o,
            stage,
        ) by {
            lemma_grow_holds(start, accesses@, prov@, v, descriptors@, o, stage);
        }
        assert forall|d: int| 0 <= d < accesses@.len() implies (#[trigger] accesses@[d]).0 & !allowed_access(
            descriptors@[d].binding.descriptor_type,
            stage,
        ) == 0 by {
            let t = descriptors@[d].binding.descriptor_type;
            lemma_operation_within(t, operation, stage);
            lemma_or_within(start[d].0, recorded(prov@, value, descriptors@, operation, stage, d), allowed_access(t, stage));
        }
    }
    r
}

/// Each function parameter among `insts`, with the function that declares it, in order.
pub open spec fn parameters_of(insts: Seq<Instruction>) -> Seq<(u32, u32)>
    decreases insts.len(),
{
    if insts.len() == 0 {
        Seq::empty()
    } else {
        let last = insts.last();
        let rest = parameters_of(insts.drop_last());
        match last.function {
            Some(f) => if last.opcode == OP_FUNCTION_PARAMETER && last.operands@.len() >= 2 {
                rest.push((f, last.operands@[1]))
            } else {
                rest
            },
            None => rest,
        }
    }
}

/// Each value given back among `insts`, with the function that gives it back, in order.
pub open spec fn return_values_of(insts: Seq<Instruction>) -> Seq<(u32, u32)>
    decreases insts.len(),
{
    if insts.len() == 0 {
        Seq::empty()
    } else {
        let last = insts.last();
        let rest = return_values_of(insts.drop_last());
        match last.function {
            Some(f) => if last.opcode != OP_FUNCTION_PARAMETER && last.opcode == OP_RETURN_VALUE
                && last.operands@.len() >= 1 {
                rest.push((f, last.operands@[0]))
            } else {
                rest
            },
            None => rest,
        }
    }
}

impl Parsed {
    /// The parameters of each function and the values each gives back, in the order of the
    /// instructions that declare them.
    fn signatures(&self) -> (r: (Vec<(u32, u32)>, Vec<(u32, u32)>))
        ensures
            r.0@ == parameters_of(self.instructions@),
            r.1@ == return_values_of(self.instructions@),
    {
        let mut parameters: Vec<(u32, u32)> = Vec::new();
        let mut return_values: Vec<(u32, u32)> = Vec::new();
        let mut i: usize = 0;
        while i < self.instructions.len()
            invariant
                i <= self.instructions@.len(),
                parameters@ == parameters_of(self.instructions@.take(i as int)),
                return_values@ == return_values_of(self.instructions@.take(i as int)),
            decreases self.instructions@.len() - i,
        {
            proof {
                assert(self.instructions@.take(i + 1).drop_last() =~= self.instructions@.take(i as int));
            }
            let instruction = &self.instructions[i];
            if let Some(function) = instruction.function {
                if instruction.opcode == OP_FUNCTION_PARAMETER && instruction.operands.len() >= 2 {
                    parameters.push((function, instruction.operands[1]));
                } else if instruction.opcode == OP_RETURN_VALUE && instruction.operands.len() >= 1 {
                    return_values.push((function, instruction.operands[0]));
                }
            }
            i = i + 1;
        }
        proof {
            assert(self.instructions@.take(i as int) =~= self.instructions@);
        }
        (parameters, return_values)
    }

    /// One pass of the provenance analysis over the instructions of `reachable` functions.
    /// Whether it added anything.
    fn propagate(
        &self,
        reachable: &Vec<u32>,
        parameters: &Vec<(u32, u32)>,
        return_values: &Vec<(u32, u32)>,
        prov: &mut Vec<(u32, Origin)>,
    ) -> (changed: bool)
        ensures
            final(prov)@.len() >= old(prov)@.len(),
            changed == (final(prov)@.len() > old(prov)@.len()),
            final(prov)@.take(old(prov)@.len() as int) == old(prov)@,
            old(prov)@.len() == 0 ==> final(prov)@.len() == 0,
    {
        let mut changed = false;
        let mut i: usize = 0;
        while i < self.instructions.len()
            invariant
                i <= self.instructions@.len(),
                prov@.len() >= old(prov)@.len(),
                changed == (prov@.len() > old(prov)@.len()),
                prov@.take(old(prov)@.len() as int) == old(prov)@,
                old(prov)@.len() == 0 ==> prov@.len() == 0,
            decreases self.instructions@.len() - i,
        {
            let instruction = &self.instructions[i];
            let in_reach = match instruction.function {
                Some(function) => contains_u32(reachable, function),
                None => false,
            };
            if in_reach {
                let opcode = instruction.opcode;
                let operands = &instruction.operands;
                let n = operands.len();
                if (opcode == OP_ACCESS_CHAIN || opcode == OP_IN_BOUNDS_ACCESS_CHAIN || opcode == OP_PTR_ACCESS_CHAIN
                    || opcode == OP_IN_BOUNDS_PTR_ACCESS_CHAIN) && n >= 3 && self.value_carries_provenance(operands[1]) {
                    let base = operands[2];
                    let first = if opcode == OP_PTR_ACCESS_CHAIN || opcode == OP_IN_BOUNDS_PTR_ACCESS_CHAIN {
                        4
                    } else {
                        3
                    };
                    let constraints = self.access_chain_constraints(base, operands, first);
                    let mut additions: Vec<Origin> = Vec::new();
                    push_origins(prov, base, constraints, &mut additions);
                    if extend_origins(prov, operands[1], &additions) {
                        changed = true;
                    }
                } else if forwards_operand_exec(opcode) && n >= 3 && self.value_carries_provenance(operands[1]) {
                    let mut additions: Vec<Origin> = Vec::new();
                    push_origins(prov, operands[2], (false, false), &mut additions);
                    if extend_origins(prov, operands[1], &additions) {
                        changed = true;
                    }
                } else if opcode == OP_SAMPLED_IMAGE && n >= 4 && self.value_carries_provenance(operands[1]) {
                    let mut additions: Vec<Origin> = Vec::new();
                    push_origins(prov, operands[2], (false, false), &mut additions);
                    push_origins(prov, operands[3], (false, false), &mut additions);
                    if extend_origins(prov, operands[1], &additions) {
                        changed = true;
                    }
                } else if opcode == OP_SELECT && n >= 5 && self.value_carries_provenance(operands[1]) {
                    let mut additions: Vec<Origin> = Vec::new();
                    push_origins(prov, operands[3], (false, false), &mut additions);
                    push_origins(prov, operands[4], (false, false), &mut additions);
                    if extend_origins(prov, operands[1], &additions) {
                        changed = true;
                    }
                } else if opcode == OP_PHI && n >= 4 && self.value_carries_provenance(operands[1]) {
                    let mut additions: Vec<Origin> = Vec::new();
                    let mut k: usize = 2;
                    while k < n
                        invariant
                            n == operands@.len(),
                            2 <= k,
                            prov@.len() == 0 ==> additions@.len() == 0,
                        decreases n - k,
                    {
                        push_origins(prov, operands[k], (false, false), &mut additions);
                        if n - k < 2 {
                            break;
                        }
                        k = k + 2;
                    }
                    if extend_origins(prov, operands[1], &additions) {
                        changed = true;
                    }
                } else if opcode == OP_FUNCTION_CALL && n >= 3 {
                    let callee = operands[2];
                    let mut argument: usize = 3;
                    let mut p: usize = 0;
                    while p < parameters.len() && argument < n
                        invariant
                            n == operands@.len(),
                            prov@.len() >= old(prov)@.len(),
                            changed == (prov@.len() > old(prov)@.len()),
                            prov@.take(old(prov)@.len() as int) == old(prov)@,
                            old(prov)@.len() == 0 ==> prov@.len() == 0,
                        decreases parameters@.len() - p,
                    {
                        let (function, parameter) = parameters[p];
                        if function == callee {
                            if self.value_carries_provenance(parameter) {
                                let mut additions: Vec<Origin> = Vec::new();
                                push_origins(prov, operands[argument], (false, false), &mut additions);
                                if extend_origins(prov, parameter, &additions) {
                                    changed = true;
                                }
                            }
                            argument = argument + 1;
                        }
                        p = p + 1;
                    }
                    if self.value_carries_provenance(operands[1]) {
                        let mut additions: Vec<Origin> = Vec::new();
                        let mut q: usize = 0;
                        while q < return_values.len()
                            invariant
                                q <= return_values@.len(),
                                prov@.len() == 0 ==> additions@.len() == 0,
                            decreases return_values@.len() - q,
                        {
                            if return_values[q].0 == callee {
                                push_origins(prov, return_values[q].1, (false, false), &mut additions);
                            }
                            q = q + 1;
                        }
                        if extend_origins(prov, operands[1], &additions) {
                            changed = true;
                        }
                    }
                }
            }
            i = i + 1;
        }
        changed
    }
}

fn forwards_operand_exec(op: u32) -> (r: bool)
    ensures
        r == forwards_operand(op),
{
    op == OP_LOAD || op == OP_IMAGE_TEXEL_POINTER || op == OP_COPY_OBJECT || op == OP_COPY_LOGICAL || op == OP_IMAGE
        || op == OP_BITCAST
}

/// What stands for something other than `variable`.
pub open spec fn other_than(variable: u32) -> spec_fn((u32, Origin)) -> bool {
    |x: (u32, Origin)| x.0 != variable
}

/// Sets what `variable` may stand for to `origin` alone.
fn set_origin(prov: &mut Vec<(u32, Origin)>, variable: u32, origin: Origin)
    ensures
        final(prov)@ == old(prov)@.filter(other_than(variable)).push((variable, origin)),
{
    let ghost keep = other_than(variable);
    let mut kept: Vec<(u32, Origin)> = Vec::new();
    let mut e: usize = 0;
    while e < prov.len()
        invariant
            e <= prov@.len(),
            prov@ == old(prov)@,
            keep == other_than(variable),
            kept@ == prov@.take(e as int).filter(keep),
        decreases prov@.len() - e,
    {
        proof {
            assert(prov@.take(e + 1) =~= prov@.take(e as int).push(prov@[e as int]));
            crate::sync::lemma_filter_push(prov@.take(e as int), prov@[e as int], keep);
            assert(keep(prov@[e as int]) == (prov@[e as int].0 != variable));
        }
        if prov[e].0 != variable {
            kept.push(prov[e]);
        }
        e = e + 1;
    }
    proof {
        assert(prov@.take(e as int) =~= prov@);
    }
    kept.push((variable, origin));
    *prov = kept;
}

/// How many passes of the provenance analysis can add something: each one that does adds a
/// value and an origin it did not hold, and there are only so many of each.
fn pass_limit(instructions: usize, descriptors: usize) -> (r: u64)
    ensures
        r == (if (instructions + descriptors + 1) * (4 * descriptors + 1) <= u64::MAX {
            ((instructions + descriptors + 1) * (4 * descriptors + 1)) as u64
        } else {
            u64::MAX
        }),
{
    proof {
        let v = instructions + descriptors + 1;
        let o = 4 * descriptors + 1;
        assert(v * o >= v && v * o >= o) by (nonlinear_arith)
            requires
                v >= 1,
                o >= 1,
        ;
    }
    let values = (instructions as u64).checked_add(descriptors as u64);
    let origins = (descriptors as u64).checked_mul(4);
    match (values, origins) {
        (Some(values), Some(origins)) => match values.checked_add(1) {
            Some(values) => match values.checked_mul(origins + 1) {
                Some(pairs) => pairs,
                None => u64::MAX,
            },
            None => u64::MAX,
        },
        _ => u64::MAX,
    }
}

/// The memory, image and acceleration-structure operations an instruction with `opcode` and
/// `operands` makes, each through the value it makes it through: a store writes through its
/// pointer, a copy writes its target and reads its source, an atomic load or an array length
/// reads, an atomic read-modify-write both reads and writes, an image read, sample or gather
/// reads the image, an image write writes it, and tracing or initializing a ray query reads
/// the acceleration structure. A load reads through its pointer, unless what it loads is an
/// image, sampler or acceleration-structure handle of `m` itself.
pub open spec fn memory_ops(m: ShaderModel, opcode: u32, operands: Seq<u32>) -> Seq<(u32, DescriptorOperation)> {
    let n = operands.len();
    if opcode == OP_LOAD && n >= 3 && !m.value_is_opaque_handle_spec(operands[1]) {
        seq![(operands[2], DescriptorOperation::MemoryRead)]
    } else if (opcode == OP_STORE || opcode == OP_ATOMIC_STORE || opcode == OP_ATOMIC_FLAG_CLEAR) && n >= 1 {
        seq![(operands[0], DescriptorOperation::MemoryWrite)]
    } else if (opcode == OP_COPY_MEMORY || opcode == OP_COPY_MEMORY_SIZED) && n >= 2 {
        seq![(operands[0], DescriptorOperation::MemoryWrite), (operands[1], DescriptorOperation::MemoryRead)]
    } else if (opcode == OP_ARRAY_LENGTH || opcode == OP_ATOMIC_LOAD) && n >= 3 {
        seq![(operands[2], DescriptorOperation::MemoryRead)]
    } else if ((OP_ATOMIC_RMW_FIRST <= opcode && opcode <= OP_ATOMIC_RMW_LAST) || opcode == OP_ATOMIC_FLAG_TEST_AND_SET
        || opcode == OP_ATOMIC_FMIN || opcode == OP_ATOMIC_FMAX || opcode == OP_ATOMIC_FADD) && n >= 3 {
        seq![(operands[2], DescriptorOperation::MemoryRead), (operands[2], DescriptorOperation::MemoryWrite)]
    } else if ((OP_IMAGE_SAMPLE_FIRST <= opcode && opcode <= OP_IMAGE_READ) || (OP_IMAGE_SPARSE_SAMPLE_FIRST <= opcode
        && opcode <= OP_IMAGE_SPARSE_DREF_GATHER) || opcode == OP_IMAGE_SPARSE_READ || opcode == OP_IMAGE_SAMPLE_FOOTPRINT)
        && n >= 3 {
        seq![(operands[2], DescriptorOperation::ImageRead)]
    } else if opcode == OP_IMAGE_WRITE && n >= 1 {
        seq![(operands[0], DescriptorOperation::ImageWrite)]
    } else if opcode == OP_TRACE_RAY && n >= 1 {
        seq![(operands[0], DescriptorOperation::AccelerationStructureRead)]
    } else if opcode == OP_RAY_QUERY_INITIALIZE && n >= 2 {
        seq![(operands[1], DescriptorOperation::AccelerationStructureRead)]
    } else {
        seq![]
    }
}

/// Each access of `accesses` holds what `operation` through `value` does to its descriptor,
/// under the provenance `prov`.
pub open spec fn holds_op(
    accesses: Seq<Access>,
    prov: Seq<(u32, Origin)>,
    value: u32,
    descriptors: Seq<PendingDescriptor>,
    operation: DescriptorOperation,
    stage: u32,
) -> bool {
    forall|d: int|
        0 <= d < accesses.len() ==> (#[trigger] accesses[d]).0 & recorded(prov, value, descriptors, operation, stage, d)
            == recorded(prov, value, descriptors, operation, stage, d)
}

/// `b` holds every access bit `a` holds, descriptor for descriptor.
pub open spec fn accesses_grow(a: Seq<Access>, b: Seq<Access>) -> bool {
    &&& a.len() == b.len()
    &&& forall|d: int| 0 <= d < a.len() ==> (#[trigger] b[d]).0 & a[d].0 == a[d].0
}

/// `reach` lists `entry` first and every function a function it lists calls.
pub open spec fn closed_call_tree(m: ShaderModel, entry: u32, reach: Seq<u32>) -> bool {
    &&& reach.len() >= 1
    &&& reach[0] == entry
    &&& forall|i: int, c: int, callee: u32| 0 <= c < reach.len() && #[trigger] m.calls(i, reach[c], callee) ==> reach.contains(callee)
}

/// The accesses of the first `upto` instructions of `m` in a function of `reach` are all held
/// by `accesses`: every memory, image and acceleration-structure operation such an instruction
/// makes adds, to each descriptor the value it goes through may stand for under `prov`, the
/// access that operation is for that descriptor's type at `stage`.
pub open spec fn ops_held(
    m: ShaderModel,
    reach: Seq<u32>,
    prov: Seq<(u32, Origin)>,
    descriptors: Seq<PendingDescriptor>,
    stage: u32,
    accesses: Seq<Access>,
    upto: int,
) -> bool {
    forall|i: int, q: int|
        0 <= i < upto && (m.instructions[i].2 matches Some(f) && reach.contains(f)) && 0 <= q < memory_ops(
            m,
            m.instructions[i].0,
            m.instructions[i].1,
        ).len() ==> #[trigger] holds_op(
            accesses,
            prov,
            memory_ops(m, m.instructions[i].0, m.instructions[i].1)[q].0,
            descriptors,
            memory_ops(m, m.instructions[i].0, m.instructions[i].1)[q].1,
            stage,
        )
}

/// `accesses` holds, for each of `descriptors`, every operation the call tree of `entry` makes
/// through a value that may stand for it, under a provenance of the values in `m`.
pub open spec fn covers_ops(m: ShaderModel, entry: u32, descriptors: Seq<PendingDescriptor>, stage: u32, accesses: Seq<Access>) -> bool {
    exists|prov: Seq<(u32, Origin)>, reach: Seq<u32>|
        closed_call_tree(m, entry, reach) && #[trigger] ops_held(m, reach, prov, descriptors, stage, accesses, m.instructions.len() as int)
}

/// An atomic read-modify-write through a value both reads and writes what the value may stand
/// for: where the accesses of a call tree hold its operations, each descriptor the pointer may
/// stand for holds both the read and the write access of its type.
pub proof fn lemma_atomic_update_reads_and_writes(
    m: ShaderModel,
    reach: Seq<u32>,
    prov: Seq<(u32, Origin)>,
    descriptors: Seq<PendingDescriptor>,
    stage: u32,
    accesses: Seq<Access>,
    i: int,
    d: int,
)
    requires
        ops_held(m, reach, prov, descriptors, stage, accesses, m.instructions.len() as int),
        0 <= i < m.instructions.len(),
        m.instructions[i].2 matches Some(f) && reach.contains(f),
        OP_ATOMIC_RMW_FIRST <= m.instructions[i].0 <= OP_ATOMIC_RMW_LAST,
        m.instructions[i].1.len() >= 3,
        0 <= d < accesses.len(),
    ensures
        accesses[d].0 & recorded(prov, m.instructions[i].1[2], descriptors, DescriptorOperation::MemoryRead, stage, d)
            == recorded(prov, m.instructions[i].1[2], descriptors, DescriptorOperation::MemoryRead, stage, d),
        accesses[d].0 & recorded(prov, m.instructions[i].1[2], descriptors, DescriptorOperation::MemoryWrite, stage, d)
            == recorded(prov, m.instructions[i].1[2], descriptors, DescriptorOperation::MemoryWrite, stage, d),
{
    let ops = memory_ops(m, m.instructions[i].0, m.instructions[i].1);
    assert(ops == seq![
        (m.instructions[i].1[2], DescriptorOperation::MemoryRead),
        (m.instructions[i].1[2], DescriptorOperation::MemoryWrite),
    ]);
    assert(holds_op(accesses, prov, ops[0].0, descriptors, ops[0].1, stage));
    assert(holds_op(accesses, prov, ops[1].0, descriptors, ops[1].1, stage));
}

proof fn lemma_access_or(x: u32, y: u32, z: u32)
    by (bit_vector)
    ensures
        (x | y) & x == x,
        (x | y) & y == y,
        x & x == x,
        (z & y == y && x & z == z) ==> x & y == y,
{
}

/// What `record` added, from `a` to `b`: `b` grows `a` and holds the operation.
proof fn lemma_recorded_grows(
    a: Seq<Access>,
    b: Seq<Access>,
    prov: Seq<(u32, Origin)>,
    value: u32,
    descriptors: Seq<PendingDescriptor>,
    operation: DescriptorOperation,
    stage: u32,
)
    requires
        a.len() == b.len(),
        forall|d: int| 0 <= d < b.len() ==> (#[trigger] b[d]).0 == a[d].0 | recorded(prov, value, descriptors, operation, stage, d),
    ensures
        accesses_grow(a, b),
        holds_op(b, prov, value, descriptors, operation, stage),
{
    assert forall|d: int| 0 <= d < a.len() implies (#[trigger] b[d]).0 & a[d].0 == a[d].0 by {
        lemma_access_or(a[d].0, recorded(prov, value, descriptors, operation, stage, d), 0);
    }
    assert forall|d: int| 0 <= d < b.len() implies (#[trigger] b[d]).0 & recorded(prov, value, descriptors, operation, stage, d)
        == recorded(prov, value, descriptors, operation, stage, d) by {
        lemma_access_or(a[d].0, recorded(prov, value, descriptors, operation, stage, d), 0);
    }
}

/// Growing keeps every operation held.
proof fn lemma_grow_holds(
    a: Seq<Access>,
    b: Seq<Access>,
    prov: Seq<(u32, Origin)>,
    value: u32,
    descriptors: Seq<PendingDescriptor>,
    operation: DescriptorOperation,
    stage: u32,
)
    requires
        accesses_grow(a, b),
        holds_op(a, prov, value, descriptors, operation, stage),
    ensures
        holds_op(b, prov, value, descriptors, operation, stage),
{
    assert forall|d: int| 0 <= d < b.len() implies (#[trigger] b[d]).0 & recorded(prov, value, descriptors, operation, stage, d)
        == recorded(prov, value, descriptors, operation, stage, d) by {
        let y = recorded(prov, value, descriptors, operation, stage, d);
        assert(a[d].0 & y == y);
        lemma_access_or(b[d].0, y, a[d].0);
    }
}

proof fn lemma_grow_trans(a: Seq<Access>, b: Seq<Access>, c: Seq<Access>)
    requires
        accesses_grow(a, b),
        accesses_grow(b, c),
    ensures
        accesses_grow(a, c),
{
    assert forall|d: int| 0 <= d < a.len() implies (#[trigger] c[d]).0 & a[d].0 == a[d].0 by {
        assert(b[d].0 & a[d].0 == a[d].0);
        lemma_access_or(c[d].0, a[d].0, b[d].0);
    }
}

proof fn lemma_grow_refl(a: Seq<Access>)
    ensures
        accesses_grow(a, a),
{
    assert forall|d: int| 0 <= d < a.len() implies (#[trigger] a[d]).0 & a[d].0 == a[d].0 by {
        lemma_access_or(a[d].0, 0, 0);
    }
}

/// Growing keeps what the first instructions held held.
proof fn lemma_grow_ops_held(
    m: ShaderModel,
    reach: Seq<u32>,
    prov: Seq<(u32, Origin)>,
    descriptors: Seq<PendingDescriptor>,
    stage: u32,
    a: Seq<Access>,
    b: Seq<Access>,
    upto: int,
)
    requires
        accesses_grow(a, b),
        ops_held(m, reach, prov, descriptors, stage, a, upto),
    ensures
        ops_held(m, reach, prov, descriptors, stage, b, upto),
{
    assert forall|i: int, q: int|
        0 <= i < upto && (m.instructions[i].2 matches Some(f) && reach.contains(f)) && 0 <= q < memory_ops(
            m,
            m.instructions[i].0,
            m.instructions[i].1,
        ).len() implies #[trigger] holds_op(
        b,
        prov,
        memory_ops(m, m.instructions[i].0, m.instructions[i].1)[q].0,
        descriptors,
        memory_ops(m, m.instructions[i].0, m.instructions[i].1)[q].1,
        stage,
    ) by {
        let op = memory_ops(m, m.instructions[i].0, m.instructions[i].1)[q];
        assert(holds_op(a, prov, op.0, descriptors, op.1, stage));
        lemma_grow_holds(a, b, prov, op.0, descriptors, op.1, stage);
    }
}

impl Parsed {
    /// What the static call tree from `entry_function` does through each of `descriptors`, at
    /// `stage`: the provenance of each value is followed from the descriptor variables through
    /// access chains, loads, copies, selects, phis and calls, and every memory, image and
    /// acceleration-structure operation through a value adds its access to the descriptors it
    /// may stand for. Fails where such an operation contradicts a decoration or its
    /// descriptor's type, or an instruction the analysis cannot follow touches a descriptor.
    pub fn descriptor_accesses(&self, entry_function: u32, stage: u32, descriptors: &Vec<PendingDescriptor>) -> (r:
        Result<Vec<Access>, ReflectError>)
        ensures
            r matches Ok(accesses) ==> accesses_within(accesses@, descriptors@, stage),
            r is Err ==> r == Err::<Vec<Access>, ReflectError>(ReflectError::DescriptorMisuse),
            descriptors@.len() == 0 ==> (r matches Ok(accesses) && accesses@.len() == 0),
            r matches Ok(accesses) ==> covers_ops(self@, entry_function, descriptors@, stage, accesses@),
    {
        let reachable = self.reachable_functions(entry_function);
        let mut prov: Vec<(u32, Origin)> = Vec::new();
        let mut d: usize = 0;
        while d < descriptors.len()
            invariant
                d <= descriptors@.len(),
                descriptors@.len() == 0 ==> prov@.len() == 0,
            decreases descriptors@.len() - d,
        {
            let descriptor = descriptors[d];
            let constraints = self.type_constraints(descriptor.pointer_type, 0);
            let origin = Origin {
                variable: descriptor.variable,
                non_readable: self.has_decoration(descriptor.variable, DECORATION_NON_READABLE) || constraints.0,
                non_writable: self.has_decoration(descriptor.variable, DECORATION_NON_WRITABLE) || constraints.1,
            };
            set_origin(&mut prov, descriptor.variable, origin);
            d = d + 1;
        }

        let (parameters, return_values) = self.signatures();
        let limit = pass_limit(self.instructions.len(), descriptors.len());
        let mut pass: u64 = 0;
        let mut changed = true;
        while changed && pass < limit
            invariant
                pass <= limit,
                descriptors@.len() == 0 ==> prov@.len() == 0,
            decreases limit - pass,
        {
            changed = self.propagate(&reachable, &parameters, &return_values, &mut prov);
            pass = pass + 1;
        }

        let mut accesses: Vec<Access> = Vec::new();
        let mut d: usize = 0;
        while d < descriptors.len()
            invariant
                d <= descriptors@.len(),
                accesses@.len() == d,
                forall|q: int|
                    0 <= q < d ==> (#[trigger] accesses@[q]).0 & !allowed_access(descriptors@[q].binding.descriptor_type, stage)
                        == 0,
            decreases descriptors@.len() - d,
        {
            proof {
                lemma_or_within(0, 0, allowed_access(descriptors@[d as int].binding.descriptor_type, stage));
            }
            accesses.push(Access(0));
            d = d + 1;
        }

        let mut i: usize = 0;
        while i < self.instructions.len()
            invariant
                i <= self.instructions@.len(),
                accesses_within(accesses@, descriptors@, stage),
                descriptors@.len() == 0 ==> prov@.len() == 0,
                closed_call_tree(self@, entry_function, reachable@),
                ops_held(self@, reachable@, prov@, descriptors@, stage, accesses@, i as int),
            decreases self.instructions@.len() - i,
        {
            let ghost before = accesses@;
            proof {
                lemma_grow_refl(before);
            }
            let instruction = &self.instructions[i];
            let in_reach = match instruction.function {
                Some(function) => contains_u32(&reachable, function),
                None => false,
            };
            if in_reach {
                let opcode = instruction.opcode;
                let operands = &instruction.operands;
                let n = operands.len();
                let mut outcome: Result<(), ReflectError> = Ok(());
                if opcode == OP_LOAD {
                    if n >= 3 && !self.value_is_opaque_handle(operands[1]) {
                        outcome = record(operands[2], DescriptorOperation::MemoryRead, stage, &prov, descriptors, &mut accesses);
                    }
                } else if opcode == OP_STORE || opcode == OP_ATOMIC_STORE || opcode == OP_ATOMIC_FLAG_CLEAR {
                    if n >= 1 {
                        outcome = record(operands[0], DescriptorOperation::MemoryWrite, stage, &prov, descriptors, &mut accesses);
                    }
                } else if opcode == OP_COPY_MEMORY || opcode == OP_COPY_MEMORY_SIZED {
                    if n >= 2 {
                        outcome = record(operands[0], DescriptorOperation::MemoryWrite, stage, &prov, descriptors, &mut accesses);
                        if outcome.is_ok() {
                            outcome = record(operands[1], DescriptorOperation::MemoryRead, stage, &prov, descriptors, &mut accesses);
                        }
                    }
                } else if opcode == OP_ARRAY_LENGTH || opcode == OP_ATOMIC_LOAD {
                    if n >= 3 {
                        outcome = record(operands[2], DescriptorOperation::MemoryRead, stage, &prov, descriptors, &mut accesses);
                    }
                } else if (OP_ATOMIC_RMW_FIRST <= opcode && opcode <= OP_ATOMIC_RMW_LAST) || opcode
                    == OP_ATOMIC_FLAG_TEST_AND_SET || opcode == OP_ATOMIC_FMIN || opcode == OP_ATOMIC_FMAX || opcode
                    == OP_ATOMIC_FADD {
                    if n >= 3 {
                        outcome = record(operands[2], DescriptorOperation::MemoryRead, stage, &prov, descriptors, &mut accesses);
                        if outcome.is_ok() {
                            outcome = record(operands[2], DescriptorOperation::MemoryWrite, stage, &prov, descriptors, &mut accesses);
                        }
                    }
                } else if (OP_IMAGE_SAMPLE_FIRST <= opcode && opcode <= OP_IMAGE_READ) || (OP_IMAGE_SPARSE_SAMPLE_FIRST
                    <= opcode && opcode <= OP_IMAGE_SPARSE_DREF_GATHER) || opcode == OP_IMAGE_SPARSE_READ || opcode
                    == OP_IMAGE_SAMPLE_FOOTPRINT {
                    if n >= 3 {
                        outcome = record(operands[2], DescriptorOperation::ImageRead, stage, &prov, descriptors, &mut accesses);
                    }
                } else if opcode == OP_IMAGE_WRITE {
                    if n >= 1 {
                        outcome = record(operands[0], DescriptorOperation::ImageWrite, stage, &prov, descriptors, &mut accesses);
                    }
                } else if opcode == OP_TRACE_RAY {
                    if n >= 1 {
                        outcome = record(
                            operands[0],
                            DescriptorOperation::AccelerationStructureRead,
                            stage,
                            &prov,
                            descriptors,
                            &mut accesses,
                        );
                    }
                } else if opcode == OP_RAY_QUERY_INITIALIZE {
                    if n >= 2 {
                        outcome = record(
                            operands[1],
                            DescriptorOperation::AccelerationStructureRead,
                            stage,
                            &prov,
                            descriptors,
                            &mut accesses,
                        );
                    }
                } else if passes_descriptors_on_exec(opcode) {
                } else if opcode == OP_EXT_INST {
                    if touches_descriptor(&prov, operands, 4) {
                        return Err(ReflectError::DescriptorMisuse);
                    }
                } else if touches_descriptor(&prov, operands, 0) {
                    return Err(ReflectError::DescriptorMisuse);
                }
                if outcome.is_err() {
                    return Err(ReflectError::DescriptorMisuse);
                }
            }
            proof {
                let m = self@;
                assert(m.instructions[i as int] == (instruction.opcode, instruction.operands@, instruction.function));
                assert(accesses_grow(before, accesses@));
                lemma_grow_ops_held(m, reachable@, prov@, descriptors@, stage, before, accesses@, i as int);
                let ops = memory_ops(m, m.instructions[i as int].0, m.instructions[i as int].1);
                if in_reach {
                    assert forall|q: int| 0 <= q < ops.len() implies #[trigger] holds_op(
                        accesses@,
                        prov@,
                        ops[q].0,
                        descriptors@,
                        ops[q].1,
                        stage,
                    ) by {}
                }
                assert forall|j: int, q: int|
                    0 <= j < i + 1 && (m.instructions[j].2 matches Some(f) && reachable@.contains(f)) && 0 <= q < memory_ops(
                        m,
                        m.instructions[j].0,
                        m.instructions[j].1,
                    ).len() implies #[trigger] holds_op(
                    accesses@,
                    prov@,
                    memory_ops(m, m.instructions[j].0, m.instructions[j].1)[q].0,
                    descriptors@,
                    memory_ops(m, m.instructions[j].0, m.instructions[j].1)[q].1,
                    stage,
                ) by {
                    if j == i {
                        assert(in_reach);
                    }
                }
            }
            i = i + 1;
        }
        proof {
            let n = self@.instructions.len() as int;
            assert(ops_held(self@, reachable@, prov@, descriptors@, stage, accesses@, n));
            assert(covers_ops(self@, entry_function, descriptors@, stage, accesses@));
        }
        Ok(accesses)
    }
}

/// The byte range the push constant block of variable `v` spans, where it has one that spans
/// any bytes.
pub open spec fn push_entry(m: ShaderModel, v: (u32, u32, u32)) -> Option<(u32, u32)> {
    let (variable, pointer_type, storage_class) = v;
    match m.type_spec(pointer_type) {
        Some(TypeInfo::Pointer { pointee }) => if storage_class == STORAGE_CLASS_PUSH_CONSTANT {
            let start = m.block_start_spec(pointee);
            let end = m.type_size_spec(pointee, 0);
            if end > start { Some((start, end)) } else { None }
        } else {
            None
        },
        _ => None,
    }
}

/// The byte range that covers the push constant blocks of `vars`.
pub open spec fn push_range_of(m: ShaderModel, vars: Seq<(u32, u32, u32)>) -> Option<(u32, u32)>
    decreases vars.len(),
{
    if vars.len() == 0 {
        None
    } else {
        let rest = push_range_of(m, vars.drop_last());
        match push_entry(m, vars.last()) {
            Some((start, end)) => match rest {
                Some((first, last)) => Some(
                    (if start < first { start } else { first }, if end > last { end } else { last }),
                ),
                None => Some((start, end)),
            },
            None => rest,
        }
    }
}

proof fn lemma_push_range_ordered(m: ShaderModel, vars: Seq<(u32, u32, u32)>)
    ensures
        push_range_of(m, vars) matches Some((start, end)) ==> start < end,
    decreases vars.len(),
{
    if vars.len() > 0 {
        lemma_push_range_ordered(m, vars.drop_last());
    }
}

/// The vertex attribute variable `v` feeds, at a vertex stage: an input at a location, not a
/// builtin, whose type has a format.
pub open spec fn vertex_entry(m: ShaderModel, stage: u32, v: (u32, u32, u32)) -> Option<VertexInput> {
    let (variable, pointer_type, storage_class) = v;
    match m.type_spec(pointer_type) {
        Some(TypeInfo::Pointer { pointee }) => if storage_class == STORAGE_CLASS_INPUT && stage == STAGE_VERTEX
            && !m.has_decoration_spec(variable, DECORATION_BUILT_IN) {
            match (m.decoration_spec(variable, DECORATION_LOCATION), m.vertex_format_spec(pointee)) {
                (Some(location), Some(format)) => Some(
                    VertexInput { location, format, size: m.type_size_spec(pointee, 0) },
                ),
                _ => None,
            }
        } else {
            None
        },
        _ => None,
    }
}

/// The vertex inputs `vars` declare, in the order they were declared.
pub open spec fn vertex_inputs_of(m: ShaderModel, stage: u32, vars: Seq<(u32, u32, u32)>) -> Seq<VertexInput>
    decreases vars.len(),
{
    if vars.len() == 0 {
        Seq::empty()
    } else {
        match vertex_entry(m, stage, vars.last()) {
            Some(input) => vertex_inputs_of(m, stage, vars.drop_last()).push(input),
            None => vertex_inputs_of(m, stage, vars.drop_last()),
        }
    }
}

/// The descriptor variable `v` declares: neither push constants nor an input, with a set and
/// a binding, and a type a descriptor can have once its arrays are taken off.
pub open spec fn pending_entry(m: ShaderModel, stage: u32, v: (u32, u32, u32)) -> Option<PendingDescriptor> {
    let (variable, pointer_type, storage_class) = v;
    match m.type_spec(pointer_type) {
        Some(TypeInfo::Pointer { pointee }) => if storage_class == STORAGE_CLASS_PUSH_CONSTANT || storage_class
            == STORAGE_CLASS_INPUT {
            None
        } else {
            match (m.decoration_spec(variable, DECORATION_DESCRIPTOR_SET), m.decoration_spec(variable, DECORATION_BINDING)) {
                (Some(set), Some(binding)) => {
                    let (element, count, variable_count) = m.peel_spec(pointee, MAX_TYPE_DEPTH as nat, 1, false);
                    match m.descriptor_type_spec(storage_class, element) {
                        Some(descriptor_type) => Some(
                            PendingDescriptor {
                                variable,
                                pointer_type,
                                binding: DescriptorBinding {
                                    set,
                                    binding,
                                    descriptor_type,
                                    count,
                                    variable_count,
                                    stages: stage,
                                    access: Access(0),
                                },
                            },
                        ),
                        None => None,
                    }
                },
                _ => None,
            }
        },
        _ => None,
    }
}

/// The descriptor variables `vars` declare, in the order they were declared.
pub open spec fn pending_of(m: ShaderModel, stage: u32, vars: Seq<(u32, u32, u32)>) -> Seq<PendingDescriptor>
    decreases vars.len(),
{
    if vars.len() == 0 {
        Seq::empty()
    } else {
        match pending_entry(m, stage, vars.last()) {
            Some(pending) => pending_of(m, stage, vars.drop_last()).push(pending),
            None => pending_of(m, stage, vars.drop_last()),
        }
    }
}

/// The workgroup a stage runs with: the one the module declares where every axis of it is
/// positive, else one invocation.
pub open spec fn local_size_rule(m: ShaderModel) -> (u32, u32, u32) {
    match m.declared_local_size_spec() {
        Some((x, y, z)) => if x > 0 && y > 0 && z > 0 { (x, y, z) } else { (1, 1, 1) },
        None => (1, 1, 1),
    }
}

/// `a` orders no later than `b` by set, then binding.
pub open spec fn binding_le(a: DescriptorBinding, b: DescriptorBinding) -> bool {
    a.set < b.set || (a.set == b.set && a.binding <= b.binding)
}

pub open spec fn pending_sorted(s: Seq<PendingDescriptor>) -> bool {
    forall|i: int, j: int| 0 <= i < j < s.len() ==> binding_le(#[trigger] s[i].binding, #[trigger] s[j].binding)
}

pub open spec fn inputs_sorted(s: Seq<VertexInput>) -> bool {
    forall|i: int, j: int| 0 <= i < j < s.len() ==> (#[trigger] s[i]).location <= (#[trigger] s[j]).location
}

/// `pending` ordered by set and binding.
fn sort_pending(pending: &Vec<PendingDescriptor>) -> (r: Vec<PendingDescriptor>)
    ensures
        r@.to_multiset() == pending@.to_multiset(),
        pending_sorted(r@),
{
    broadcast use vstd::seq_lib::group_to_multiset_ensures;

    let mut out: Vec<PendingDescriptor> = Vec::new();
    let mut i: usize = 0;
    while i < pending.len()
        invariant
            i <= pending@.len(),
            out@.to_multiset() == pending@.take(i as int).to_multiset(),
            pending_sorted(out@),
        decreases pending@.len() - i,
    {
        let x = pending[i];
        let mut at: usize = 0;
        while at < out.len() && !(x.binding.set < out[at].binding.set || (x.binding.set == out[at].binding.set
            && x.binding.binding < out[at].binding.binding))
            invariant
                at <= out@.len(),
                forall|q: int| 0 <= q < at ==> binding_le(#[trigger] out@[q].binding, x.binding),
            decreases out@.len() - at,
        {
            at = at + 1;
        }
        let ghost before = out@;
        out.insert(at, x);
        proof {
            assert(pending@.take(i + 1) =~= pending@.take(i as int).push(x));
            vstd::seq_lib::to_multiset_build(pending@.take(i as int), x);
            vstd::seq_lib::to_multiset_insert(before, at as int, x);
            assert forall|a: int, b: int| 0 <= a < b < out@.len() implies binding_le(
                #[trigger] out@[a].binding,
                #[trigger] out@[b].binding,
            ) by {
                if b < at {
                    assert(out@[a] == before[a] && out@[b] == before[b]);
                } else if b == at {
                    assert(out@[a] == before[a]);
                } else if a == at {
                    assert(out@[b] == before[b - 1]);
                    if at < before.len() {
                        assert(before[at as int] == out@[at + 1]);
                        assert(binding_le(before[at as int].binding, before[b - 1].binding) || at as int == b - 1);
                    }
                } else if a < at {
                    assert(out@[a] == before[a] && out@[b] == before[b - 1]);
                } else {
                    assert(out@[a] == before[a - 1] && out@[b] == before[b - 1]);
                }
            }
        }
        i = i + 1;
    }
    proof {
        assert(pending@.take(i as int) =~= pending@);
    }
    out
}

/// `inputs` ordered by location.
fn sort_inputs(inputs: &Vec<VertexInput>) -> (r: Vec<VertexInput>)
    ensures
        r@.to_multiset() == inputs@.to_multiset(),
        inputs_sorted(r@),
{
    broadcast use vstd::seq_lib::group_to_multiset_ensures;

    let mut out: Vec<VertexInput> = Vec::new();
    let mut i: usize = 0;
    while i < inputs.len()
        invariant
            i <= inputs@.len(),
            out@.to_multiset() == inputs@.take(i as int).to_multiset(),
            inputs_sorted(out@),
        decreases inputs@.len() - i,
    {
        let x = inputs[i];
        let mut at: usize = 0;
        while at < out.len() && out[at].location <= x.location
            invariant
                at <= out@.len(),
                forall|q: int| 0 <= q < at ==> (#[trigger] out@[q]).location <= x.location,
            decreases out@.len() - at,
        {
            at = at + 1;
        }
        let ghost before = out@;
        out.insert(at, x);
        proof {
            assert(inputs@.take(i + 1) =~= inputs@.take(i as int).push(x));
            vstd::seq_lib::to_multiset_build(inputs@.take(i as int), x);
            vstd::seq_lib::to_multiset_insert(before, at as int, x);
            assert forall|a: int, b: int| 0 <= a < b < out@.len() implies (#[trigger] out@[a]).location
                <= (#[trigger] out@[b]).location by {
                if b < at {
                    assert(out@[a] == before[a] && out@[b] == before[b]);
                } else if b == at {
                    assert(out@[a] == before[a]);
                } else if a == at {
                    assert(out@[b] == before[b - 1]);
                    if at < before.len() {
                        assert(before[at as int] == out@[at + 1]);
                    }
                } else if a < at {
                    assert(out@[a] == before[a] && out@[b] == before[b - 1]);
                } else {
                    assert(out@[a] == before[a - 1] && out@[b] == before[b - 1]);
                }
            }
        }
        i = i + 1;
    }
    proof {
        assert(inputs@.take(i as int) =~= inputs@);
    }
    out
}

/// `a` and `b` are the same binding, whatever access each says it has.
pub open spec fn same_but_access(a: DescriptorBinding, b: DescriptorBinding) -> bool {
    &&& a.set == b.set
    &&& a.binding == b.binding
    &&& a.descriptor_type == b.descriptor_type
    &&& a.count == b.count
    &&& a.variable_count == b.variable_count
    &&& a.stages == b.stages
}

/// The push constant range as an offset and a size: none is an empty range at zero.
pub open spec fn push_constants_rule(range: Option<(u32, u32)>) -> (u32, u32) {
    match range {
        Some((start, end)) => (start, (end - start) as u32),
        None => (0, 0),
    }
}

/// `refl` is what the module `m` declares for its entry point at `stage`: the stage and name,
/// the push constant range, the vertex inputs ordered by location, the workgroup, and the
/// descriptor bindings ordered by set and binding, each with an access its type allows.
pub open spec fn reflects(m: ShaderModel, stage: u32, refl: Reflection) -> bool {
    let pending = pending_of(m, stage, m.variables);
    &&& refl.stage == stage
    &&& refl.entry_point@ == m.entry_points[0].2
    &&& (refl.push_constant_offset, refl.push_constant_size) == push_constants_rule(push_range_of(m, m.variables))
    &&& refl.vertex_inputs@.to_multiset() == vertex_inputs_of(m, stage, m.variables).to_multiset()
    &&& inputs_sorted(refl.vertex_inputs@)
    &&& (refl.local_size@[0], refl.local_size@[1], refl.local_size@[2]) == local_size_rule(m)
    &&& exists|order: Seq<PendingDescriptor>|
        {
            &&& #[trigger] order.to_multiset() == pending.to_multiset()
            &&& pending_sorted(order)
            &&& order.len() == refl.bindings@.len()
            &&& forall|k: int|
                0 <= k < order.len() ==> same_but_access(#[trigger] refl.bindings@[k], order[k].binding)
                    && refl.bindings@[k].access.0 & !allowed_access(order[k].binding.descriptor_type, stage) == 0
        }
}

/// The one entry point of `m` runs at a stage reflection knows, and `m` declares no
/// descriptor for it.
pub open spec fn declares_no_descriptors(m: ShaderModel) -> bool {
    match stage_of_spec(m.entry_points[0].0) {
        Some(stage) => pending_of(m, stage, m.variables).len() == 0,
        None => false,
    }
}

/// Reads what a SPIR-V module declares for its one entry point: the stage and name, the
/// descriptor bindings with what the entry point does through each, the push constant
/// range, the vertex inputs of a vertex stage, and the workgroup of a compute stage.
pub fn reflect(spirv: &[u32]) -> (r: Result<Reflection, ReflectError>)
    ensures
        (r == Err::<Reflection, ReflectError>(ReflectError::Malformed)) <==> !well_formed(spirv@),
        well_formed(spirv@) ==> {
            let m = model_of(module_insts(spirv@).unwrap());
            &&& (r == Err::<Reflection, ReflectError>(ReflectError::EntryPointCount)) <==> m.entry_points.len() != 1
            &&& m.entry_points.len() == 1 ==> ((r == Err::<Reflection, ReflectError>(
                ReflectError::UnsupportedExecutionModel,
            )) <==> stage_of_spec(m.entry_points[0].0) is None)
            &&& r matches Ok(refl) ==> (m.entry_points.len() == 1 && (stage_of_spec(m.entry_points[0].0) matches Some(
                stage,
            ) && reflects(m, stage, refl)))
            &&& m.entry_points.len() == 1 && declares_no_descriptors(m) ==> r is Ok
        },
{
    let parsed = match parse(spirv) {
        Some(parsed) => parsed,
        None => return Err(ReflectError::Malformed),
    };
    let ghost m = parsed@;
    if parsed.entry_points.len() != 1 {
        return Err(ReflectError::EntryPointCount);
    }
    let entry = &parsed.entry_points[0];
    let stage = match stage_from_execution_model(entry.execution_model) {
        Some(stage) => stage,
        None => return Err(ReflectError::UnsupportedExecutionModel),
    };

    let mut pending: Vec<PendingDescriptor> = Vec::new();
    let mut inputs: Vec<VertexInput> = Vec::new();
    let mut push: Option<(u32, u32)> = None;
    let variables = &parsed.variables;
    let mut j: usize = 0;
    while j < variables.len()
        invariant
            m == parsed@,
            variables@ == m.variables,
            j <= variables@.len(),
            push == push_range_of(m, m.variables.take(j as int)),
            inputs@ == vertex_inputs_of(m, stage, m.variables.take(j as int)),
            pending@ == pending_of(m, stage, m.variables.take(j as int)),
        decreases variables@.len() - j,
    {
        let (variable, pointer_type, storage_class) = variables[j];
        let ghost v = m.variables[j as int];
        proof {
            assert(m.variables.take(j + 1).drop_last() =~= m.variables.take(j as int));
            assert(m.variables.take(j + 1).last() == v);
        }
        if let Some(TypeInfo::Pointer { pointee }) = parsed.type_of(pointer_type) {
            if storage_class == STORAGE_CLASS_PUSH_CONSTANT {
                let start = parsed.block_start(pointee);
                let end = parsed.type_size(pointee, 0);
                if end > start {
                    push = Some(
                        match push {
                            Some((first, last)) => (if start < first { start } else { first }, if end > last {
                                end
                            } else {
                                last
                            }),
                            None => (start, end),
                        },
                    );
                }
            } else if storage_class == STORAGE_CLASS_INPUT {
                if stage == STAGE_VERTEX && !parsed.has_decoration(variable, DECORATION_BUILT_IN) {
                    if let Some(location) = parsed.decoration(variable, DECORATION_LOCATION) {
                        if let Some(format) = parsed.vertex_format(pointee) {
                            inputs.push(VertexInput { location, format, size: parsed.type_size(pointee, 0) });
                        }
                    }
                }
            } else {
                let set = parsed.decoration(variable, DECORATION_DESCRIPTOR_SET);
                let binding = parsed.decoration(variable, DECORATION_BINDING);
                if let (Some(set), Some(binding)) = (set, binding) {
                    let (element, count, variable_count) = parsed.peel_arrays(pointee);
                    if let Some(descriptor_type) = parsed.descriptor_type(storage_class, element) {
                        pending.push(
                            PendingDescriptor {
                                variable,
                                pointer_type,
                                binding: DescriptorBinding {
                                    set,
                                    binding,
                                    descriptor_type,
                                    count,
                                    variable_count,
                                    stages: stage,
                                    access: Access(0),
                                },
                            },
                        );
                    }
                }
            }
        }
        j = j + 1;
    }
    proof {
        assert(m.variables.take(j as int) =~= m.variables);
    }

    let sorted = sort_pending(&pending);
    proof {
        broadcast use vstd::seq_lib::group_to_multiset_ensures;
        assert(sorted@.len() == sorted@.to_multiset().len());
        assert(pending@.len() == pending@.to_multiset().len());
    }
    let accesses = match parsed.descriptor_accesses(entry.function, stage, &sorted) {
        Ok(accesses) => accesses,
        Err(error) => return Err(error),
    };
    let mut bindings: Vec<DescriptorBinding> = Vec::new();
    let mut k: usize = 0;
    while k < sorted.len()
        invariant
            k <= sorted@.len(),
            accesses_within(accesses@, sorted@, stage),
            bindings@.len() == k,
            forall|q: int|
                0 <= q < k ==> same_but_access(#[trigger] bindings@[q], sorted@[q].binding) && bindings@[q].access.0
                    & !allowed_access(sorted@[q].binding.descriptor_type, stage) == 0,
        decreases sorted@.len() - k,
    {
        let mut binding = sorted[k].binding;
        binding.access = accesses[k];
        bindings.push(binding);
        k = k + 1;
    }
    let vertex_inputs = sort_inputs(&inputs);
    proof {
        lemma_push_range_ordered(m, m.variables);
    }
    let (push_constant_offset, push_constant_size) = match push {
        Some((start, end)) => (start, end - start),
        None => (0, 0),
    };
    let local_size = match parsed.declared_local_size() {
        Some((x, y, z)) => if x > 0 && y > 0 && z > 0 {
            [x, y, z]
        } else {
            [1, 1, 1]
        },
        None => [1, 1, 1],
    };
    let refl = Reflection {
        stage,
        entry_point: entry.name.clone(),
        bindings,
        push_constant_offset,
        push_constant_size,
        vertex_inputs,
        local_size,
    };
    proof {
        assert(refl.entry_point@ =~= m.entry_points[0].2);
        let order = sorted@;
        assert(order.to_multiset() == pending_of(m, stage, m.variables).to_multiset());
    }
    Ok(refl)
}

} // verus!
