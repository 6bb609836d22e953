use vstd::prelude::*;

use crate::access::{
    Access, ACCESS_COMPUTE_READ, ACCESS_COMPUTE_SAMPLED, ACCESS_COMPUTE_UNIFORM_READ, ACCESS_COMPUTE_WRITE,
    ACCESS_DEPTH_STENCIL_READ, ACCESS_DEPTH_STENCIL_WRITE, ACCESS_PRESENT, DOMAIN_PRESENT, LAYOUT_UNDEFINED,
};
use crate::ids::{INVALID_ID, LabelId, PipelineId, ValueId};
use crate::ir::{
    BIND_POINT_COMPUTE, BIND_POINT_GRAPHICS, ClearValue, Constant, Descriptor, DispatchSize, IR,
    MAX_RESOLVE_DEPTH, Type, UnderlyingObject, VariableKind, constant_eq, underlying_object,
    underlying_object_spec,
};
use crate::program::{AcquiredSwapchain, SwapChain, Value, Variable};
use crate::resource::{
    Buffer, BufferImageCopy, BufferInfo, Extent2D, Extent3D, Image, ImageAttachment, ImageInfo, MemoryLocation,
    VIEW_TYPE_2D, VIEW_TYPE_2D_ARRAY,
};
use crate::state::{
    ColorBlendAttachmentState, DepthState, DynamicStateFlags, DynamicValues, ONE_F32_BITS, PipelineState,
    PushConstants, RasterizationState, Rect2D, StateChange, Viewport,
};

verus! {

/// Vulkan's raw linear filter, what a blit filters with unless told otherwise.
pub const FILTER_LINEAR: i32 = 1;

/// How a block ends.
#[derive(Debug, Clone, Copy, PartialEq, Eq, Structural)]
pub enum Terminator {
    Return,
    Branch { target: LabelId },
    BranchConditional { condition: ValueId, merge: LabelId, true_label: LabelId, false_label: LabelId },
}

#[derive(Debug, Clone, Copy, PartialEq, Eq, Structural)]
pub struct Block {
    pub label: LabelId,
    pub terminator: Terminator,
}

#[derive(Debug, Clone, Copy, PartialEq, Eq, Structural)]
pub enum PassKind {
    Rendering,
    Compute,
}

/// The pass being recorded: what kind it is, the instruction that opened it and the last one
/// chained onto it.
#[derive(Debug, Clone, Copy, PartialEq, Eq, Structural)]
pub struct OngoingPass {
    pub kind: PassKind,
    pub begin: ValueId,
    pub tip: ValueId,
}


/// A selection being recorded: the labels of its two arms and of the block they join in.
#[derive(Debug, Clone, Copy, PartialEq, Eq, Structural)]
pub struct Selection {
    pub merge: LabelId,
    pub true_label: LabelId,
    pub false_label: LabelId,
    pub taken: ValueId,
}

/// A render graph being recorded: the instructions in the order they were recorded, the
/// variables a program of it is filled in through, and the blocks its selections make.
pub struct Module {
    types: Vec<(Type, ValueId)>,
    constants: Vec<(Constant, ValueId)>,
    instructions: Vec<IR>,
    variables: Vec<Variable>,
    variable_ids: Vec<ValueId>,
    blocks: Vec<Block>,
    instruction_block: Vec<Option<LabelId>>,
    label_count: u32,
    current_block: Option<LabelId>,
    ongoing_pass: Option<OngoingPass>,
}

/// Follows a value back through what it forwards or is an element of, `fuel` steps at most,
/// to the instruction that defines the resource.
pub open spec fn resolve_spec(instrs: Seq<IR>, id: ValueId, fuel: nat) -> Option<ValueId>
    decreases fuel,
{
    if fuel == 0 || id.0 >= instrs.len() {
        None
    } else {
        match underlying_object_spec(instrs[id.0 as int]) {
            UnderlyingObject::Base => Some(id),
            UnderlyingObject::Forwards(next) => resolve_spec(instrs, next, (fuel - 1) as nat),
            UnderlyingObject::Element(next) => resolve_spec(instrs, next, (fuel - 1) as nat),
            UnderlyingObject::NoResource => None,
        }
    }
}

/// Follows a value back through what it forwards, `fuel` steps at most: the value a barrier
/// on it is keyed by.
pub open spec fn root_spec(instrs: Seq<IR>, id: ValueId, fuel: nat) -> ValueId
    decreases fuel,
{
    if fuel == 0 || id.0 >= instrs.len() {
        id
    } else {
        match underlying_object_spec(instrs[id.0 as int]) {
            UnderlyingObject::Forwards(next) => root_spec(instrs, next, (fuel - 1) as nat),
            _ => id,
        }
    }
}

pub open spec fn declared_ok(instrs: Seq<IR>, declared: Seq<(ValueId, ValueId)>) -> bool {
    forall|k: int|
        0 <= k < declared.len() ==> (#[trigger] declared[k]).1.0 < instrs.len() && instrs[declared[k].1.0 as int]
            matches IR::Constant(Constant::Access(_))
}

impl Module {
    pub closed spec fn instrs(&self) -> Seq<IR> {
        self.instructions@
    }

    pub closed spec fn open_pass(&self) -> Option<OngoingPass> {
        self.ongoing_pass
    }

    pub closed spec fn block_list(&self) -> Seq<Block> {
        self.blocks@
    }

    pub closed spec fn variable_list(&self) -> Seq<Variable> {
        self.variables@
    }

    pub closed spec fn variable_id_list(&self) -> Seq<ValueId> {
        self.variable_ids@
    }

    pub closed spec fn block_ids(&self) -> Seq<Option<LabelId>> {
        self.instruction_block@
    }

    pub closed spec fn current(&self) -> Option<LabelId> {
        self.current_block
    }

    pub closed spec fn type_table(&self) -> Seq<(Type, ValueId)> {
        self.types@
    }

    pub closed spec fn constant_table(&self) -> Seq<(Constant, ValueId)> {
        self.constants@
    }

    pub closed spec fn label_total(&self) -> u32 {
        self.label_count
    }

    /// Room for another recording call: ids, labels and slots are all far from running out.
    pub closed spec fn room(&self) -> bool {
        &&& self.instructions@.len() + 64 <= INVALID_ID
        &&& self.label_count + 4 <= INVALID_ID
        &&& self.variables@.len() + 1 <= u32::MAX
    }

    pub closed spec fn wf(&self) -> bool {
        &&& self.instruction_block@.len() == self.instructions@.len()
        &&& self.instructions@.len() < INVALID_ID
        &&& self.variables@.len() == self.variable_ids@.len()
        &&& self.variables@.len() <= u32::MAX
        &&& forall|i: int|
            0 <= i < self.types@.len() ==> {
                let (ty, id) = #[trigger] self.types@[i];
                id.0 < self.instructions@.len() && self.instructions@[id.0 as int] == IR::Type(ty)
            }
        &&& forall|i: int|
            0 <= i < self.constants@.len() ==> {
                let (c, id) = #[trigger] self.constants@[i];
                id.0 < self.instructions@.len() && (self.instructions@[id.0 as int] matches IR::Constant(k)
                    && constant_eq(k, c))
            }
        &&& forall|i: int|
            0 <= i < self.instructions@.len() ==> match #[trigger] self.instructions@[i] {
                IR::BeginRendering { attachments, .. } => declared_ok(self.instructions@, attachments@),
                IR::BeginCompute { attachments, .. } => declared_ok(self.instructions@, attachments@),
                _ => true,
            }
        &&& self.ongoing_pass matches Some(p) ==> p.begin.0 < self.instructions@.len()
            && p.tip.0 < self.instructions@.len() && p.begin.0 <= p.tip.0 && (if p.kind == PassKind::Rendering {
                self.instructions@[p.begin.0 as int] is BeginRendering
            } else {
                self.instructions@[p.begin.0 as int] is BeginCompute
            })
        &&& self.blocks@.len() > 0
        &&& forall|i: int| 0 <= i < self.blocks@.len() ==> (#[trigger] self.blocks@[i]).label.0 < self.label_count
    }

    /// An empty module: one entry block, labelled 0, ending in a return.
    pub fn new() -> (r: Module)
        ensures
            r.wf(),
            r.room(),
            r.instrs().len() == 0,
            r.block_list() == seq![Block { label: LabelId(0), terminator: Terminator::Return }],
            r.open_pass() is None,
    {
        let mut blocks = Vec::new();
        blocks.push(Block { label: LabelId(0), terminator: Terminator::Return });
        Module {
            types: Vec::new(),
            constants: Vec::new(),
            instructions: Vec::new(),
            variables: Vec::new(),
            variable_ids: Vec::new(),
            blocks,
            instruction_block: Vec::new(),
            label_count: 1,
            current_block: Some(LabelId(0)),
            ongoing_pass: None,
        }
    }

    /// A well-formed module numbers its instructions with valid ids.
    pub proof fn lemma_ids_valid(&self)
        requires
            self.wf(),
        ensures
            self.instrs().len() < INVALID_ID,
            self.variable_list().len() == self.variable_id_list().len(),
    {
    }

    pub fn len(&self) -> (r: usize)
        ensures
            r == self.instrs().len(),
    {
        self.instructions.len()
    }

    /// The instruction recorded at `id`.
    pub fn get(&self, id: ValueId) -> (r: &IR)
        requires
            id.0 < self.instrs().len(),
        ensures
            *r == self.instrs()[id.0 as int],
    {
        &self.instructions[id.0 as usize]
    }

    /// The block the instruction at `id` was recorded in.
    pub fn block_of(&self, id: ValueId) -> (r: Option<LabelId>)
        ensures
            id.0 < self.block_ids().len() ==> r == self.block_ids()[id.0 as int],
            id.0 >= self.block_ids().len() ==> r is None,
    {
        if (id.0 as usize) < self.instruction_block.len() {
            self.instruction_block[id.0 as usize]
        } else {
            None
        }
    }

    pub fn blocks(&self) -> (r: &Vec<Block>)
        ensures
            r@ == self.block_list(),
    {
        &self.blocks
    }

    pub fn variables(&self) -> (r: &Vec<Variable>)
        ensures
            r@ == self.variable_list(),
    {
        &self.variables
    }

    pub fn variable_ids(&self) -> (r: &Vec<ValueId>)
        ensures
            r@ == self.variable_id_list(),
    {
        &self.variable_ids
    }

    /// Appends an instruction to the block being recorded; its id is its position.
    fn emit(&mut self, ir: IR) -> (r: ValueId)
        requires
            old(self).wf(),
            old(self).instructions@.len() + 1 < INVALID_ID,
            match ir {
                IR::BeginRendering { attachments, .. } => attachments@.len() == 0,
                IR::BeginCompute { attachments, .. } => attachments@.len() == 0,
                _ => true,
            },
        ensures
            final(self).wf(),
            r.0 == old(self).instructions@.len(),
            final(self).instructions@ == old(self).instructions@.push(ir),
            final(self).instruction_block@ == old(self).instruction_block@.push(old(self).current_block),
            final(self).types == old(self).types,
            final(self).constants == old(self).constants,
            final(self).variables == old(self).variables,
            final(self).variable_ids == old(self).variable_ids,
            final(self).blocks == old(self).blocks,
            final(self).label_count == old(self).label_count,
            final(self).current_block == old(self).current_block,
            final(self).ongoing_pass == old(self).ongoing_pass,
    {
        let id = ValueId(self.instructions.len() as u32);
        self.instructions.push(ir);
        self.instruction_block.push(self.current_block);
        proof {
            assert forall|i: int| 0 <= i < self.instructions@.len() implies match #[trigger] self.instructions@[i] {
                IR::BeginRendering { attachments, .. } => declared_ok(self.instructions@, attachments@),
                IR::BeginCompute { attachments, .. } => declared_ok(self.instructions@, attachments@),
                _ => true,
            } by {
                if i < old(self).instructions@.len() {
                    assert(self.instructions@[i] == old(self).instructions@[i]);
                    match old(self).instructions@[i] {
                        IR::BeginRendering { attachments, .. } => {
                            assert(declared_ok(old(self).instructions@, attachments@));
                            assert forall|k: int| 0 <= k < attachments@.len() implies (#[trigger] attachments@[k]).1.0 < self.instructions@.len() && self.instructions@[attachments@[k].1.0 as int] matches IR::Constant(Constant::Access(_)) by {
                                assert(self.instructions@[attachments@[k].1.0 as int] == old(self).instructions@[attachments@[k].1.0 as int]);
                            }
                        },
                        IR::BeginCompute { attachments, .. } => {
                            assert(declared_ok(old(self).instructions@, attachments@));
                            assert forall|k: int| 0 <= k < attachments@.len() implies (#[trigger] attachments@[k]).1.0 < self.instructions@.len() && self.instructions@[attachments@[k].1.0 as int] matches IR::Constant(Constant::Access(_)) by {
                                assert(self.instructions@[attachments@[k].1.0 as int] == old(self).instructions@[attachments@[k].1.0 as int]);
                            }
                        },
                        _ => {},
                    }
                }
            }
            assert forall|i: int| 0 <= i < self.types@.len() implies {
                let (ty, id) = #[trigger] self.types@[i];
                id.0 < self.instructions@.len() && self.instructions@[id.0 as int] == IR::Type(ty)
            } by {
                let (ty, id) = self.types@[i];
                assert(old(self).instructions@[id.0 as int] == IR::Type(ty));
            }
            assert forall|i: int| 0 <= i < self.constants@.len() implies {
                let (c, id) = #[trigger] self.constants@[i];
                id.0 < self.instructions@.len() && (self.instructions@[id.0 as int] matches IR::Constant(k)
                    && constant_eq(k, c))
            } by {
                let (c, id) = self.constants@[i];
                assert(self.instructions@[id.0 as int] == old(self).instructions@[id.0 as int]);
            }
        }
        id
    }
}

impl Module {
    /// `self` holds everything `old` held: its instructions, the blocks they were recorded
    /// in, its type and constant tables and its variables, with anything new after them.
    pub closed spec fn extends(&self, old: &Module) -> bool {
        &&& old.instructions@.len() <= self.instructions@.len()
        &&& forall|i: int| 0 <= i < old.instructions@.len() ==> #[trigger] self.instructions@[i] == old.instructions@[i]
        &&& old.instruction_block@.len() <= self.instruction_block@.len()
        &&& forall|i: int| 0 <= i < old.instruction_block@.len() ==> #[trigger] self.instruction_block@[i]
            == old.instruction_block@[i]
        &&& old.types@.len() <= self.types@.len()
        &&& forall|i: int| 0 <= i < old.types@.len() ==> #[trigger] self.types@[i] == old.types@[i]
        &&& old.constants@.len() <= self.constants@.len()
        &&& forall|i: int| 0 <= i < old.constants@.len() ==> #[trigger] self.constants@[i] == old.constants@[i]
    }

    /// As [`Self::extends`], but for the instruction at `skip`, which may have been rewritten.
    pub closed spec fn extends_except(&self, old: &Module, skip: int) -> bool {
        &&& old.instructions@.len() <= self.instructions@.len()
        &&& forall|i: int| 0 <= i < old.instructions@.len() && i != skip ==> #[trigger] self.instructions@[i]
            == old.instructions@[i]
        &&& old.instruction_block@.len() <= self.instruction_block@.len()
        &&& forall|i: int| 0 <= i < old.instruction_block@.len() ==> #[trigger] self.instruction_block@[i]
            == old.instruction_block@[i]
        &&& old.types@.len() <= self.types@.len()
        &&& forall|i: int| 0 <= i < old.types@.len() ==> #[trigger] self.types@[i] == old.types@[i]
        &&& old.constants@.len() <= self.constants@.len()
        &&& forall|i: int| 0 <= i < old.constants@.len() ==> #[trigger] self.constants@[i] == old.constants@[i]
    }

    /// Recording left the blocks and the variables as they were.
    pub closed spec fn same_blocks(&self, old: &Module) -> bool {
        &&& self.blocks == old.blocks
        &&& self.label_count == old.label_count
        &&& self.current_block == old.current_block
        &&& self.variables == old.variables
        &&& self.variable_ids == old.variable_ids
    }

    /// Recording left the blocks, the open pass and the variables as they were.
    pub closed spec fn same_frame(&self, old: &Module) -> bool {
        &&& self.blocks == old.blocks
        &&& self.label_count == old.label_count
        &&& self.current_block == old.current_block
        &&& self.ongoing_pass == old.ongoing_pass
        &&& self.variables == old.variables
        &&& self.variable_ids == old.variable_ids
    }

    /// The id of the type instruction for `ty`, emitting it the first time it is asked for.
    fn lower_type(&mut self, ty: Type) -> (r: ValueId)
        requires
            old(self).wf(),
            old(self).instructions@.len() + 1 < INVALID_ID,
        ensures
            final(self).wf(),
            final(self).extends(old(self)),
            final(self).same_frame(old(self)),
            final(self).instructions@.len() <= old(self).instructions@.len() + 1,
            r.0 < final(self).instructions@.len(),
            final(self).instructions@[r.0 as int] == IR::Type(ty),
    {
        let mut i: usize = 0;
        while i < self.types.len()
            invariant
                self.wf(),
                i <= self.types@.len(),
            decreases self.types@.len() - i,
        {
            if self.types[i].0 == ty {
                let id = self.types[i].1;
                return id;
            }
            i = i + 1;
        }
        let id = self.emit(IR::Type(ty));
        self.types.push((ty, id));
        id
    }

    /// The id of a constant holding `c`, emitting it the first time that value is asked for.
    /// Asking again for a value already lowered gives the same id back and records nothing.
    fn lower_constant(&mut self, c: Constant) -> (r: ValueId)
        requires
            old(self).wf(),
            old(self).instructions@.len() + 1 < INVALID_ID,
        ensures
            final(self).wf(),
            final(self).extends(old(self)),
            final(self).same_frame(old(self)),
            final(self).instructions@.len() <= old(self).instructions@.len() + 1,
            r.0 < final(self).instructions@.len(),
            final(self).instructions@.len() > old(self).instructions@.len() ==> r.0 == old(self).instructions@.len(),
            final(self).instructions@[r.0 as int] matches IR::Constant(k) && constant_eq(k, c),
            (exists|i: int| 0 <= i < old(self).constants@.len() && constant_eq(#[trigger] old(self).constants@[i].0, c))
                ==> final(self).instructions@ == old(self).instructions@,
    {
        let mut i: usize = 0;
        while i < self.constants.len()
            invariant
                self.wf(),
                i <= self.constants@.len(),
                forall|k: int| 0 <= k < i ==> !constant_eq(#[trigger] self.constants@[k].0, c),
            decreases self.constants@.len() - i,
        {
            if self.constants[i].0.same(&c) {
                let id = self.constants[i].1;
                proof {
                    let k = choose|k: Constant| self.instructions@[id.0 as int] == IR::Constant(k);
                }
                return id;
            }
            i = i + 1;
        }
        let stored = c.copy();
        let id = self.emit(IR::Constant(c));
        self.constants.push((stored, id));
        id
    }
}

impl Module {
    /// Whether there is room for another recording call.
    pub fn has_room(&self) -> (r: bool)
        ensures
            r == self.room(),
    {
        self.instructions.len() <= 0xffff_ffff - 64 && self.label_count <= 0xffff_ffff - 4
            && self.variables.len() < 0xffff_ffff
    }

    fn lower_u32(&mut self, v: u32) -> (r: ValueId)
        requires
            old(self).wf(),
            old(self).instructions@.len() + 1 < INVALID_ID,
        ensures
            final(self).wf(),
            final(self).extends(old(self)),
            final(self).same_frame(old(self)),
            final(self).instructions@.len() <= old(self).instructions@.len() + 1,
            r.0 < final(self).instructions@.len(),
            final(self).instructions@.len() > old(self).instructions@.len() ==> r.0 == old(self).instructions@.len(),
            final(self).instructions@[r.0 as int] == IR::Constant(Constant::U32(v)),
    {
        self.lower_constant(Constant::U32(v))
    }

    fn lower_i32(&mut self, v: i32) -> (r: ValueId)
        requires
            old(self).wf(),
            old(self).instructions@.len() + 1 < INVALID_ID,
        ensures
            final(self).wf(),
            final(self).extends(old(self)),
            final(self).same_frame(old(self)),
            final(self).instructions@.len() <= old(self).instructions@.len() + 1,
            r.0 < final(self).instructions@.len(),
            final(self).instructions@.len() > old(self).instructions@.len() ==> r.0 == old(self).instructions@.len(),
            final(self).instructions@[r.0 as int] == IR::Constant(Constant::I32(v)),
    {
        self.lower_constant(Constant::I32(v))
    }

    fn lower_access(&mut self, access: Access) -> (r: ValueId)
        requires
            old(self).wf(),
            old(self).instructions@.len() + 1 < INVALID_ID,
        ensures
            final(self).wf(),
            final(self).extends(old(self)),
            final(self).same_frame(old(self)),
            final(self).instructions@.len() <= old(self).instructions@.len() + 1,
            r.0 < final(self).instructions@.len(),
            final(self).instructions@.len() > old(self).instructions@.len() ==> r.0 == old(self).instructions@.len(),
            final(self).instructions@[r.0 as int] == IR::Constant(Constant::Access(access)),
    {
        self.lower_constant(Constant::Access(access))
    }

    /// The constant naming a value, or the invalid id for no name.
    fn lower_name(&mut self, name: Option<String>) -> (r: ValueId)
        requires
            old(self).wf(),
            old(self).instructions@.len() + 1 < INVALID_ID,
        ensures
            final(self).wf(),
            final(self).extends(old(self)),
            final(self).same_frame(old(self)),
            final(self).instructions@.len() <= old(self).instructions@.len() + 1,
            name is None ==> r == ValueId(INVALID_ID) && final(self).instructions@ == old(self).instructions@,
            name matches Some(n) ==> r.0 < final(self).instructions@.len() && (final(self).instructions@[r.0 as int]
                matches IR::Constant(Constant::String(k)) && k@ == n@),
    {
        match name {
            None => {
                ValueId(INVALID_ID)
            },
            Some(n) => self.lower_constant(Constant::String(n)),
        }
    }

    /// The handle a module gives the block it has yet to place.
    fn declare_label(&mut self) -> (r: LabelId)
        requires
            old(self).label_count + 1 < INVALID_ID,
        ensures
            r == LabelId(old(self).label_count),
            final(self).label_count == old(self).label_count + 1,
            final(self).instructions == old(self).instructions,
            final(self).instruction_block == old(self).instruction_block,
            final(self).types == old(self).types,
            final(self).constants == old(self).constants,
            final(self).blocks == old(self).blocks,
            final(self).current_block == old(self).current_block,
            final(self).ongoing_pass == old(self).ongoing_pass,
            final(self).variables == old(self).variables,
            final(self).variable_ids == old(self).variable_ids,
    {
        let label = LabelId(self.label_count);
        self.label_count = self.label_count + 1;
        label
    }

    /// Opens the block `label` names; what is recorded next belongs to it. A label placed a
    /// second time is refused and leaves the module as it was.
    fn place_label(&mut self, label: LabelId)
        requires
            old(self).wf(),
            label.0 < old(self).label_count,
        ensures
            final(self).wf(),
            (exists|i: int| 0 <= i < old(self).blocks@.len() && #[trigger] old(self).blocks@[i].label == label)
                ==> final(self).blocks == old(self).blocks && final(self).current_block == old(self).current_block,
            !(exists|i: int| 0 <= i < old(self).blocks@.len() && #[trigger] old(self).blocks@[i].label == label)
                ==> final(self).blocks@ == old(self).blocks@.push(Block { label, terminator: Terminator::Return })
                && final(self).current_block == Some(label),
            final(self).instructions == old(self).instructions,
            final(self).instruction_block == old(self).instruction_block,
            final(self).types == old(self).types,
            final(self).constants == old(self).constants,
            final(self).label_count == old(self).label_count,
            final(self).ongoing_pass == old(self).ongoing_pass,
            final(self).variables == old(self).variables,
            final(self).variable_ids == old(self).variable_ids,
    {
        let mut i: usize = 0;
        while i < self.blocks.len()
            invariant
                self.wf(),
                *self == *old(self),
                i <= self.blocks@.len(),
                forall|k: int| 0 <= k < i ==> self.blocks@[k].label != label,
            decreases self.blocks@.len() - i,
        {
            if self.blocks[i].label == label {
                return;
            }
            i = i + 1;
        }
        self.blocks.push(Block { label, terminator: Terminator::Return });
        self.current_block = Some(label);
    }

    /// Ends the last block with `terminator`, unless it was already ended some other way.
    fn terminate(&mut self, terminator: Terminator)
        requires
            old(self).wf(),
        ensures
            final(self).wf(),
            old(self).blocks@.last().terminator == Terminator::Return ==> final(self).blocks@
                == old(self).blocks@.update(
                old(self).blocks@.len() - 1,
                Block { label: old(self).blocks@.last().label, terminator },
            ),
            old(self).blocks@.last().terminator != Terminator::Return ==> final(self).blocks == old(self).blocks,
            final(self).instructions == old(self).instructions,
            final(self).instruction_block == old(self).instruction_block,
            final(self).types == old(self).types,
            final(self).constants == old(self).constants,
            final(self).label_count == old(self).label_count,
            final(self).current_block == old(self).current_block,
            final(self).ongoing_pass == old(self).ongoing_pass,
            final(self).variables == old(self).variables,
            final(self).variable_ids == old(self).variable_ids,
    {
        let last = self.blocks.len() - 1;
        let block = self.blocks[last];
        if block.terminator == Terminator::Return {
            self.blocks.set(last, Block { label: block.label, terminator });
        }
    }
}

/// A name, as a value carries it: none for an empty one.
pub open spec fn name_of(name: Seq<char>) -> Option<Seq<char>> {
    if name.len() == 0 { None } else { Some(name) }
}

fn owned_name(name: &str) -> (r: Option<String>)
    ensures
        name@.len() == 0 ==> r is None,
        name@.len() != 0 ==> (r matches Some(s) && s@ == name@),
{
    if name.is_empty() {
        None
    } else {
        Some(name.to_owned())
    }
}

/// The instruction at `id` is a string constant holding `name`.
pub open spec fn names(instrs: Seq<IR>, id: ValueId, name: Seq<char>) -> bool {
    id.0 < instrs.len() && (instrs[id.0 as int] matches IR::Constant(Constant::String(k)) && k@ == name)
}

/// `id` names a value by `name`, or is the invalid id where there is no name.
pub open spec fn names_opt(instrs: Seq<IR>, id: ValueId, name: Option<Seq<char>>) -> bool {
    match name {
        None => id == ValueId(INVALID_ID),
        Some(n) => names(instrs, id, n),
    }
}

impl Module {
    /// A constant holding `value`; the same value asked for twice is the same constant.
    pub fn constant_u32(&mut self, value: u32) -> (r: ValueId)
        requires
            old(self).wf(),
            old(self).room(),
        ensures
            final(self).wf(),
            final(self).extends(old(self)),
            final(self).same_frame(old(self)),
            final(self).instrs().len() <= old(self).instrs().len() + 1,
            r.0 < final(self).instrs().len(),
            final(self).instrs()[r.0 as int] == IR::Constant(Constant::U32(value)),
    {
        self.lower_u32(value)
    }

    fn declare_var(&mut self, kind: VariableKind, name: &str, value: Value) -> (r: ValueId)
        requires
            old(self).wf(),
            old(self).room(),
        ensures
            final(self).wf(),
            final(self).extends(old(self)),
            final(self).instrs().len() <= old(self).instrs().len() + 2,
            final(self).blocks == old(self).blocks,
            final(self).label_count == old(self).label_count,
            final(self).current_block == old(self).current_block,
            final(self).ongoing_pass == old(self).ongoing_pass,
            r.0 == final(self).instrs().len() - 1,
            final(self).instrs()[r.0 as int] matches IR::Variable { slot, kind: k, name: n } && slot
                == old(self).variables@.len() && k == kind && names(final(self).instrs(), n, name@),
            final(self).variables@.len() == old(self).variables@.len() + 1,
            final(self).variables@.subrange(0, old(self).variables@.len() as int) == old(self).variables@,
            final(self).variables@.last().kind == kind,
            final(self).variables@.last().value == value,
            final(self).variables@.last().name matches Some(s) && s@ == name@,
            final(self).variables@.last().resource is None,
            final(self).variable_ids@ == old(self).variable_ids@.push(r),
    {
        let slot = self.variables.len() as u32;
        let stored = name.to_owned();
        let lowered = self.lower_name(Some(name.to_owned()));
        let id = self.emit(IR::Variable { slot, kind, name: lowered });
        self.variables.push(Variable { kind, name: Some(stored), value, resource: None });
        self.variable_ids.push(id);
        proof {
            assert(self.variables@.subrange(0, old(self).variables@.len() as int) =~= old(self).variables@);
        }
        id
    }

    fn declare_resource_var(&mut self, kind: VariableKind, name: &str, resource: ValueId) -> (r: ValueId)
        requires
            old(self).wf(),
            old(self).variables@.len() + 1 <= u32::MAX,
        ensures
            final(self).wf(),
            r == resource,
            final(self).instructions == old(self).instructions,
            final(self).instruction_block == old(self).instruction_block,
            final(self).types == old(self).types,
            final(self).constants == old(self).constants,
            final(self).blocks == old(self).blocks,
            final(self).label_count == old(self).label_count,
            final(self).current_block == old(self).current_block,
            final(self).ongoing_pass == old(self).ongoing_pass,
            final(self).variables@.len() == old(self).variables@.len() + 1,
            final(self).variables@.subrange(0, old(self).variables@.len() as int) == old(self).variables@,
            final(self).variables@.last().kind == kind,
            final(self).variables@.last().resource == Some(resource),
            name@.len() == 0 ==> final(self).variables@.last().name is None,
            name@.len() != 0 ==> (final(self).variables@.last().name matches Some(s) && s@ == name@),
            final(self).variable_ids@ == old(self).variable_ids@.push(resource),
    {
        self.variables.push(Variable { kind, name: owned_name(name), value: Value::Nothing, resource: Some(resource) });
        self.variable_ids.push(resource);
        proof {
            assert(self.variables@.subrange(0, old(self).variables@.len() as int) =~= old(self).variables@);
        }
        resource
    }

    /// A variable with its default value.
    pub fn declare_bool_var(&mut self, name: &str, default: bool) -> (r: ValueId)
        requires
            old(self).wf(),
            old(self).room(),
        ensures
            final(self).wf(),
            final(self).extends(old(self)),
            final(self).instrs().len() <= old(self).instrs().len() + 2,
            final(self).instrs()[r.0 as int] matches IR::Variable { kind: VariableKind::Bool, .. },
            final(self).variable_list().last().value == Value::Bool(default),
            final(self).variable_id_list() == old(self).variable_id_list().push(r),
    {
        self.declare_var(VariableKind::Bool, name, Value::Bool(default))
    }

    pub fn declare_i32_var(&mut self, name: &str, default: i32) -> (r: ValueId)
        requires
            old(self).wf(),
            old(self).room(),
        ensures
            final(self).wf(),
            final(self).extends(old(self)),
            final(self).instrs().len() <= old(self).instrs().len() + 2,
            final(self).instrs()[r.0 as int] matches IR::Variable { kind: VariableKind::I32, .. },
            final(self).variable_list().last().value == Value::I32(default),
            final(self).variable_id_list() == old(self).variable_id_list().push(r),
    {
        self.declare_var(VariableKind::I32, name, Value::I32(default))
    }

    pub fn declare_u32_var(&mut self, name: &str, default: u32) -> (r: ValueId)
        requires
            old(self).wf(),
            old(self).room(),
        ensures
            final(self).wf(),
            final(self).extends(old(self)),
            final(self).instrs().len() <= old(self).instrs().len() + 2,
            final(self).instrs()[r.0 as int] matches IR::Variable { kind: VariableKind::U32, .. },
            final(self).variable_list().last().value == Value::U32(default),
            final(self).variable_id_list() == old(self).variable_id_list().push(r),
    {
        self.declare_var(VariableKind::U32, name, Value::U32(default))
    }

    pub fn declare_extent_2d_var(&mut self, name: &str, default: Extent2D) -> (r: ValueId)
        requires
            old(self).wf(),
            old(self).room(),
        ensures
            final(self).wf(),
            final(self).extends(old(self)),
            final(self).instrs().len() <= old(self).instrs().len() + 2,
            final(self).instrs()[r.0 as int] matches IR::Variable { kind: VariableKind::Extent2D, .. },
            final(self).variable_list().last().value == Value::Extent2D(default),
            final(self).variable_id_list() == old(self).variable_id_list().push(r),
    {
        self.declare_var(VariableKind::Extent2D, name, Value::Extent2D(default))
    }

    pub fn declare_extent_3d_var(&mut self, name: &str, default: Extent3D) -> (r: ValueId)
        requires
            old(self).wf(),
            old(self).room(),
        ensures
            final(self).wf(),
            final(self).extends(old(self)),
            final(self).instrs().len() <= old(self).instrs().len() + 2,
            final(self).instrs()[r.0 as int] matches IR::Variable { kind: VariableKind::Extent3D, .. },
            final(self).variable_list().last().value == Value::Extent3D(default),
            final(self).variable_id_list() == old(self).variable_id_list().push(r),
    {
        self.declare_var(VariableKind::Extent3D, name, Value::Extent3D(default))
    }

    pub fn declare_clear_var(&mut self, name: &str, default: ClearValue) -> (r: ValueId)
        requires
            old(self).wf(),
            old(self).room(),
        ensures
            final(self).wf(),
            final(self).extends(old(self)),
            final(self).instrs().len() <= old(self).instrs().len() + 2,
            final(self).instrs()[r.0 as int] matches IR::Variable { kind: VariableKind::ClearValue, .. },
            final(self).variable_list().last().value == Value::ClearValue(default),
            final(self).variable_id_list() == old(self).variable_id_list().push(r),
    {
        self.declare_var(VariableKind::ClearValue, name, Value::ClearValue(default))
    }

    /// A variable holding the body of an opaque pass; it starts out as the callback
    /// registered under id 0, which records nothing.
    pub fn declare_callback_var(&mut self, name: &str) -> (r: ValueId)
        requires
            old(self).wf(),
            old(self).room(),
        ensures
            final(self).wf(),
            final(self).extends(old(self)),
            final(self).instrs().len() <= old(self).instrs().len() + 2,
            final(self).instrs()[r.0 as int] matches IR::Variable { kind: VariableKind::Callback, .. },
            final(self).variable_list().last().value == Value::Callback(0),
            final(self).variable_id_list() == old(self).variable_id_list().push(r),
    {
        self.declare_var(VariableKind::Callback, name, Value::Callback(0))
    }

    /// A variable of `size` bytes, all zero to begin with.
    pub fn declare_bytes_var(&mut self, name: &str, size: u32) -> (r: ValueId)
        requires
            old(self).wf(),
            old(self).room(),
        ensures
            final(self).wf(),
            final(self).extends(old(self)),
            final(self).instrs().len() <= old(self).instrs().len() + 2,
            final(self).instrs()[r.0 as int] matches IR::Variable { kind: VariableKind::Bytes(n), .. } && n == size,
            final(self).variable_list().last().value matches Value::Bytes(b) && b@ == Seq::new(
                size as nat,
                |i: int| 0u8,
            ),
            final(self).variable_id_list() == old(self).variable_id_list().push(r),
    {
        let zeroed = zeros(size as usize);
        self.declare_var(VariableKind::Bytes(size), name, Value::Bytes(zeroed))
    }

    /// A variable holding the swapchain a frame acquired, none to begin with.
    pub fn declare_swapchain_var(&mut self, name: &str) -> (r: ValueId)
        requires
            old(self).wf(),
            old(self).room(),
        ensures
            final(self).wf(),
            final(self).extends(old(self)),
            final(self).instrs().len() <= old(self).instrs().len() + 2,
            final(self).instrs()[r.0 as int] matches IR::Variable { kind: VariableKind::Swapchain, .. },
            final(self).variable_list().last().value matches Value::Swapchain(s) && s.handle == 0
                && s.attachments@.len() == 0,
            final(self).variable_id_list() == old(self).variable_id_list().push(r),
    {
        let none = AcquiredSwapchain { handle: 0, attachments: Vec::new(), present_semaphores: Vec::new() };
        self.declare_var(VariableKind::Swapchain, name, Value::Swapchain(none))
    }
}

fn zeros(size: usize) -> (r: Vec<u8>)
    ensures
        r@ == Seq::new(size as nat, |i: int| 0u8),
{
    let mut r: Vec<u8> = Vec::with_capacity(size);
    let mut i: usize = 0;
    while i < size
        invariant
            i <= size,
            r@ == Seq::new(i as nat, |k: int| 0u8),
        decreases size - i,
    {
        r.push(0u8);
        i = i + 1;
        assert(r@ =~= Seq::new(i as nat, |k: int| 0u8));
    }
    r
}

/// The instruction at `id` is the constant `c`.
pub open spec fn is_constant(instrs: Seq<IR>, id: ValueId, c: Constant) -> bool {
    id.0 < instrs.len() && instrs[id.0 as int] == IR::Constant(c)
}

impl Module {
    /// A buffer a variable fills in when the program runs, resting at `access` until then.
    pub fn declare_buffer_var(&mut self, name: &str, access: Access) -> (r: ValueId)
        requires
            old(self).wf(),
            old(self).room(),
        ensures
            final(self).wf(),
            final(self).extends(old(self)),
            final(self).instrs().len() <= old(self).instrs().len() + 4,
            r.0 == final(self).instrs().len() - 1,
            final(self).instrs()[r.0 as int] matches IR::ConstructBuffer {
                buffer,
                size,
                usage,
                location,
                initial_access,
                name: n,
            } && buffer.handle == 0 && size == ValueId(INVALID_ID) && usage == 0 && location
                == MemoryLocation::Unknown && is_constant(final(self).instrs(), initial_access, Constant::Access(access))
                && names_opt(final(self).instrs(), n, name_of(name@)),
            final(self).variable_list().last().kind == VariableKind::Buffer,
            final(self).variable_list().last().resource == Some(r),
            final(self).variable_id_list() == old(self).variable_id_list().push(r),
    {
        self.lower_type(Type::Buffer);
        let initial_access = self.lower_access(access);
        let lowered = self.lower_name(owned_name(name));
        let resource = self.emit(IR::ConstructBuffer {
            buffer: Buffer::new(0, 0, 0, false),
            size: ValueId(INVALID_ID),
            usage: 0,
            location: MemoryLocation::Unknown,
            initial_access,
            name: lowered,
        });
        self.declare_resource_var(VariableKind::Buffer, name, resource)
    }
}

/// The instruction at `r` constructs an image with these traits, over the mips and layers the
/// four constants give.
pub open spec fn constructs_image(
    instrs: Seq<IR>,
    r: ValueId,
    handle: u64,
    extent_id: ValueId,
    format: i32,
    samples: u32,
    levels: (u32, u32),
    layers: (u32, u32),
    usage: u32,
    layout: i32,
    name: Option<Seq<char>>,
) -> bool {
    r.0 < instrs.len() && (instrs[r.0 as int] matches IR::ConstructImage {
        image,
        extent,
        format: f,
        samples: s,
        base_level,
        level_count,
        base_layer,
        layer_count,
        usage: u,
        initial_layout,
        name: n,
        view_type,
        ..
    } && image.handle == handle && extent == extent_id && f == format && s == samples && u == usage
        && initial_layout == layout && is_constant(instrs, base_level, Constant::U32(levels.0))
        && is_constant(instrs, level_count, Constant::U32(levels.1)) && is_constant(
        instrs,
        base_layer,
        Constant::U32(layers.0),
    ) && is_constant(instrs, layer_count, Constant::U32(layers.1)) && names_opt(instrs, n, name) && view_type == (
    if layers.1 > 1 {
        VIEW_TYPE_2D_ARRAY
    } else {
        VIEW_TYPE_2D
    }))
}

impl Module {
    fn construct_image(
        &mut self,
        image: Image,
        image_view: u64,
        extent: ValueId,
        format: i32,
        samples: u32,
        levels: (u32, u32),
        layers: (u32, u32),
        usage: u32,
        layout: i32,
        name: Option<String>,
    ) -> (r: ValueId)
        requires
            old(self).wf(),
            old(self).instructions@.len() + 8 < INVALID_ID,
            extent.valid() ==> extent.0 < old(self).instructions@.len(),
        ensures
            final(self).wf(),
            final(self).extends(old(self)),
            final(self).same_frame(old(self)),
            final(self).instructions@.len() <= old(self).instructions@.len() + 7,
            r.0 == final(self).instructions@.len() - 1,
            constructs_image(
                final(self).instructions@,
                r,
                image.handle,
                extent,
                format,
                samples,
                levels,
                layers,
                usage,
                layout,
                match name {
                    Some(n) => Some(n@),
                    None => None,
                },
            ),
            final(self).instructions@[r.0 as int] matches IR::ConstructImage { image: i, image_view: v, .. } && i
                == image && v == image_view,
    {
        let base_level = self.lower_u32(levels.0);
        let level_count = self.lower_u32(levels.1);
        let base_layer = self.lower_u32(layers.0);
        let layer_count = self.lower_u32(layers.1);
        self.lower_type(Type::Image { format, samples });
        let lowered = self.lower_name(name);
        let view_type = if layers.1 > 1 { VIEW_TYPE_2D_ARRAY } else { VIEW_TYPE_2D };
        self.emit(IR::ConstructImage {
            image,
            image_view,
            view_type,
            extent,
            format,
            samples,
            base_level,
            level_count,
            base_layer,
            layer_count,
            usage,
            initial_layout: layout,
            name: lowered,
        })
    }

    /// An image a variable fills in when the program runs; it is declared with the format,
    /// sample count and resting layout the image bound to it must have.
    pub fn declare_image_var(&mut self, name: &str, format: i32, samples: u32, layout: i32) -> (r: ValueId)
        requires
            old(self).wf(),
            old(self).room(),
        ensures
            final(self).wf(),
            final(self).extends(old(self)),
            final(self).instrs().len() <= old(self).instrs().len() + 7,
            r.0 == final(self).instrs().len() - 1,
            constructs_image(
                final(self).instrs(),
                r,
                0,
                ValueId(INVALID_ID),
                format,
                samples,
                (0, 1),
                (0, 1),
                0,
                layout,
                name_of(name@),
            ),
            final(self).variable_list().last().kind == VariableKind::ImageAttachment,
            final(self).variable_list().last().resource == Some(r),
            final(self).variable_id_list() == old(self).variable_id_list().push(r),
    {
        let resource = self.construct_image(
            Image::imported(0, format, Extent3D { width: 0, height: 0, depth: 0 }, samples),
            0,
            ValueId(INVALID_ID),
            format,
            samples,
            (0, 1),
            (0, 1),
            0,
            layout,
            owned_name(name),
        );
        self.declare_resource_var(VariableKind::ImageAttachment, name, resource)
    }

    fn lower_image_attachment(&mut self, attachment: &ImageAttachment, name: Option<String>) -> (r: ValueId)
        requires
            old(self).wf(),
            old(self).room(),
        ensures
            final(self).wf(),
            final(self).extends(old(self)),
            final(self).same_frame(old(self)),
            final(self).instrs().len() <= old(self).instrs().len() + 8,
            r.0 == final(self).instrs().len() - 1,
            final(self).instrs()[r.0 as int] matches IR::ConstructImage { extent, .. } && is_constant(
                final(self).instrs(),
                extent,
                Constant::Extent3D(attachment.extent),
            ),
            constructs_image(
                final(self).instrs(),
                r,
                attachment.image.handle,
                final(self).instrs()[r.0 as int]->ConstructImage_extent,
                attachment.format,
                attachment.samples,
                (attachment.subresource_range.base_mip_level, attachment.subresource_range.level_count),
                (attachment.subresource_range.base_array_layer, attachment.subresource_range.layer_count),
                attachment.image.usage,
                attachment.layout,
                match name {
                    Some(n) => Some(n@),
                    None => None,
                },
            ),
    {
        let extent = self.lower_constant(Constant::Extent3D(attachment.extent));
        let range = attachment.subresource_range;
        self.construct_image(
            attachment.image,
            attachment.image_view,
            extent,
            attachment.format,
            attachment.samples,
            (range.base_mip_level, range.level_count),
            (range.base_array_layer, range.layer_count),
            attachment.image.usage,
            attachment.layout,
            name,
        )
    }

    /// An image the caller owns, as the attachment describes it, at the extent it gives.
    pub fn import_attachment(&mut self, attachment: &ImageAttachment) -> (r: ValueId)
        requires
            old(self).wf(),
            old(self).room(),
        ensures
            final(self).wf(),
            final(self).extends(old(self)),
            final(self).same_frame(old(self)),
            final(self).instrs().len() <= old(self).instrs().len() + 8,
            r.0 == final(self).instrs().len() - 1,
            final(self).instrs()[r.0 as int] matches IR::ConstructImage { extent, .. } && is_constant(
                final(self).instrs(),
                extent,
                Constant::Extent3D(attachment.extent),
            ),
            constructs_image(
                final(self).instrs(),
                r,
                attachment.image.handle,
                final(self).instrs()[r.0 as int]->ConstructImage_extent,
                attachment.format,
                attachment.samples,
                (attachment.subresource_range.base_mip_level, attachment.subresource_range.level_count),
                (attachment.subresource_range.base_array_layer, attachment.subresource_range.layer_count),
                attachment.image.usage,
                attachment.layout,
                None,
            ),
    {
        self.lower_image_attachment(attachment, None)
    }

    /// The whole of an image the caller owns, resting in `layout`.
    pub fn import_image(&mut self, image: &Image, layout: i32) -> (r: ValueId)
        requires
            old(self).wf(),
            old(self).room(),
        ensures
            final(self).wf(),
            final(self).extends(old(self)),
            final(self).same_frame(old(self)),
            final(self).instrs().len() <= old(self).instrs().len() + 8,
            r.0 == final(self).instrs().len() - 1,
            constructs_image(
                final(self).instrs(),
                r,
                image.handle,
                final(self).instrs()[r.0 as int]->ConstructImage_extent,
                image.format,
                image.samples,
                (0, image.mip_levels),
                (0, image.array_layers),
                image.usage,
                layout,
                None,
            ),
    {
        let attachment = ImageAttachment::from_image(image, layout);
        self.import_attachment(&attachment)
    }

    /// An image the graph allocates for the run, at the extent the constant or variable
    /// `extent` holds, created for whatever the graph finds it is used for.
    pub fn transient_image_sized(&mut self, info: &ImageInfo, extent: ValueId) -> (r: ValueId)
        requires
            old(self).wf(),
            old(self).room(),
            extent.valid() ==> extent.0 < old(self).instrs().len(),
        ensures
            final(self).wf(),
            final(self).extends(old(self)),
            final(self).same_frame(old(self)),
            final(self).instrs().len() <= old(self).instrs().len() + 7,
            r.0 == final(self).instrs().len() - 1,
            constructs_image(
                final(self).instrs(),
                r,
                0,
                extent,
                info.format,
                info.samples,
                (0, info.mip_levels),
                (0, info.array_layers),
                info.usage,
                LAYOUT_UNDEFINED,
                name_of(info.name@),
            ),
    {
        let name = owned_name(info.name.as_str());
        self.construct_image(
            Image::imported(0, info.format, info.extent, info.samples),
            0,
            extent,
            info.format,
            info.samples,
            (0, info.mip_levels),
            (0, info.array_layers),
            info.usage,
            LAYOUT_UNDEFINED,
            name,
        )
    }

    /// An image the graph allocates for the run, at the extent `info` gives.
    pub fn transient_image(&mut self, info: &ImageInfo) -> (r: ValueId)
        requires
            old(self).wf(),
            old(self).room(),
        ensures
            final(self).wf(),
            final(self).extends(old(self)),
            final(self).same_frame(old(self)),
            final(self).instrs().len() <= old(self).instrs().len() + 8,
            r.0 == final(self).instrs().len() - 1,
            final(self).instrs()[r.0 as int] matches IR::ConstructImage { extent, .. } && is_constant(
                final(self).instrs(),
                extent,
                Constant::Extent3D(info.extent),
            ),
            constructs_image(
                final(self).instrs(),
                r,
                0,
                final(self).instrs()[r.0 as int]->ConstructImage_extent,
                info.format,
                info.samples,
                (0, info.mip_levels),
                (0, info.array_layers),
                info.usage,
                LAYOUT_UNDEFINED,
                name_of(info.name@),
            ),
    {
        let extent = self.lower_constant(Constant::Extent3D(info.extent));
        let name = owned_name(info.name.as_str());
        self.construct_image(
            Image::imported(0, info.format, info.extent, info.samples),
            0,
            extent,
            info.format,
            info.samples,
            (0, info.mip_levels),
            (0, info.array_layers),
            info.usage,
            LAYOUT_UNDEFINED,
            name,
        )
    }

    /// A buffer the graph allocates for the run, resting at no access.
    pub fn transient_buffer(&mut self, info: &BufferInfo) -> (r: ValueId)
        requires
            old(self).wf(),
            old(self).room(),
        ensures
            final(self).wf(),
            final(self).extends(old(self)),
            final(self).same_frame(old(self)),
            final(self).instrs().len() <= old(self).instrs().len() + 5,
            r.0 == final(self).instrs().len() - 1,
            final(self).instrs()[r.0 as int] matches IR::ConstructBuffer {
                buffer,
                size,
                usage,
                location,
                initial_access,
                name,
            } && buffer.handle == 0 && is_constant(final(self).instrs(), size, Constant::Size(info.size))
                && usage == info.usage && location == info.location && is_constant(
                final(self).instrs(),
                initial_access,
                Constant::Access(Access(0)),
            ) && names_opt(final(self).instrs(), name, name_of(info.name@)),
    {
        let size = self.lower_constant(Constant::Size(info.size));
        let initial_access = self.lower_access(Access(0));
        let name = self.lower_name(owned_name(info.name.as_str()));
        self.lower_type(Type::Buffer);
        self.emit(IR::ConstructBuffer {
            buffer: Buffer::new(0, 0, 0, false),
            size,
            usage: info.usage,
            location: info.location,
            initial_access,
            name,
        })
    }

    /// A buffer the caller owns, resting at `access`. Its size is recorded as the 32-bit
    /// constant its byte count truncates to.
    pub fn import_buffer(&mut self, buffer: &Buffer, access: Access) -> (r: ValueId)
        requires
            old(self).wf(),
            old(self).room(),
        ensures
            final(self).wf(),
            final(self).extends(old(self)),
            final(self).same_frame(old(self)),
            final(self).instrs().len() <= old(self).instrs().len() + 4,
            r.0 == final(self).instrs().len() - 1,
            final(self).instrs()[r.0 as int] matches IR::ConstructBuffer {
                buffer: b,
                size,
                usage,
                location,
                initial_access,
                name,
            } && b == *buffer && is_constant(final(self).instrs(), size, Constant::U32(buffer.size as u32))
                && usage == 0 && location == MemoryLocation::Unknown && is_constant(
                final(self).instrs(),
                initial_access,
                Constant::Access(access),
            ) && name == ValueId(INVALID_ID),
    {
        self.lower_type(Type::Buffer);
        let size = self.lower_u32(buffer.size as u32);
        let initial_access = self.lower_access(access);
        self.emit(IR::ConstructBuffer {
            buffer: *buffer,
            size,
            usage: 0,
            location: MemoryLocation::Unknown,
            initial_access,
            name: ValueId(INVALID_ID),
        })
    }
}

/// The instructions that can carry a name.
pub open spec fn can_be_named(ir: IR) -> bool {
    ir is ConstructImage || ir is ConstructBuffer || ir is BeginRendering || ir is BeginCompute
}

pub open spec fn name_field(ir: IR) -> ValueId {
    match ir {
        IR::ConstructImage { name, .. } => name,
        IR::ConstructBuffer { name, .. } => name,
        IR::BeginRendering { name, .. } => name,
        IR::BeginCompute { name, .. } => name,
        _ => ValueId(INVALID_ID),
    }
}

/// `ir` with its name replaced.
fn renamed(ir: &IR, name: ValueId) -> (r: IR)
    requires
        can_be_named(*ir),
    ensures
        can_be_named(r),
        name_field(r) == name,
        match *ir {
            IR::ConstructImage { .. } => r == (match *ir {
                IR::ConstructImage {
                    image,
                    image_view,
                    view_type,
                    extent,
                    format,
                    samples,
                    base_level,
                    level_count,
                    base_layer,
                    layer_count,
                    usage,
                    initial_layout,
                    ..
                } => IR::ConstructImage {
                    image,
                    image_view,
                    view_type,
                    extent,
                    format,
                    samples,
                    base_level,
                    level_count,
                    base_layer,
                    layer_count,
                    usage,
                    initial_layout,
                    name,
                },
                _ => *ir,
            }),
            IR::ConstructBuffer { buffer, size, usage, location, initial_access, .. } => r == IR::ConstructBuffer {
                buffer,
                size,
                usage,
                location,
                initial_access,
                name,
            },
            IR::BeginRendering { render_area, attachments, .. } => r matches IR::BeginRendering {
                render_area: a,
                attachments: x,
                ..
            } && a == render_area && x@ == attachments@,
            IR::BeginCompute { attachments, .. } => r matches IR::BeginCompute { attachments: x, .. } && x@
                == attachments@,
            _ => true,
        },
{
    let copy = ir.copy();
    match copy {
        IR::ConstructImage {
            image,
            image_view,
            view_type,
            extent,
            format,
            samples,
            base_level,
            level_count,
            base_layer,
            layer_count,
            usage,
            initial_layout,
            ..
        } => IR::ConstructImage {
            image,
            image_view,
            view_type,
            extent,
            format,
            samples,
            base_level,
            level_count,
            base_layer,
            layer_count,
            usage,
            initial_layout,
            name,
        },
        IR::ConstructBuffer { buffer, size, usage, location, initial_access, .. } => IR::ConstructBuffer {
            buffer,
            size,
            usage,
            location,
            initial_access,
            name,
        },
        IR::BeginRendering { render_area, attachments, .. } => IR::BeginRendering { render_area, attachments, name },
        IR::BeginCompute { attachments, .. } => IR::BeginCompute { attachments, name },
        other => other,
    }
}

impl Module {
    /// Names an image, a buffer or a pass; a name given to anything else is dropped.
    pub fn set_name(&mut self, id: ValueId, name: &str) -> (r: ValueId)
        requires
            old(self).wf(),
            old(self).room(),
        ensures
            final(self).wf(),
            r == id,
            final(self).same_frame(old(self)),
            final(self).instrs().len() <= old(self).instrs().len() + 1,
            !(id.0 < old(self).instrs().len() && can_be_named(old(self).instrs()[id.0 as int])) ==> final(self).instrs()
                == old(self).instrs(),
            id.0 < old(self).instrs().len() && can_be_named(old(self).instrs()[id.0 as int]) ==> {
                &&& can_be_named(final(self).instrs()[id.0 as int])
                &&& names(final(self).instrs(), name_field(final(self).instrs()[id.0 as int]), name@)
                &&& forall|i: int|
                    0 <= i < old(self).instrs().len() && i != id.0 ==> #[trigger] final(self).instrs()[i] == old(
                        self,
                    ).instrs()[i]
            },
    {
        if !((id.0 as usize) < self.instructions.len()) {
            return id;
        }
        let nameable = match &self.instructions[id.0 as usize] {
            IR::ConstructImage { .. } | IR::ConstructBuffer { .. } | IR::BeginRendering { .. } | IR::BeginCompute { .. } => true,
            _ => false,
        };
        if !nameable {
            return id;
        }
        let lowered = self.lower_constant(Constant::String(name.to_owned()));
        let ghost before = self.instructions@;
        let updated = renamed(&self.instructions[id.0 as usize], lowered);
        self.instructions.set(id.0 as usize, updated);
        proof {
            assert forall|i: int| 0 <= i < self.types@.len() implies {
                let (ty, tid) = #[trigger] self.types@[i];
                tid.0 < self.instructions@.len() && self.instructions@[tid.0 as int] == IR::Type(ty)
            } by {
                let (ty, tid) = self.types@[i];
                assert(before[tid.0 as int] == IR::Type(ty));
            }
            assert forall|i: int| 0 <= i < self.constants@.len() implies {
                let (c, cid) = #[trigger] self.constants@[i];
                cid.0 < self.instructions@.len() && (self.instructions@[cid.0 as int] matches IR::Constant(k)
                    && constant_eq(k, c))
            } by {
                let (c, cid) = self.constants@[i];
                assert(before[cid.0 as int] is Constant);
            }
            assert forall|i: int| 0 <= i < self.instructions@.len() implies match #[trigger] self.instructions@[i] {
                IR::BeginRendering { attachments, .. } => declared_ok(self.instructions@, attachments@),
                IR::BeginCompute { attachments, .. } => declared_ok(self.instructions@, attachments@),
                _ => true,
            } by {
                match before[i] {
                    IR::BeginRendering { attachments, .. } => {
                        assert(declared_ok(before, attachments@));
                    },
                    IR::BeginCompute { attachments, .. } => {
                        assert(declared_ok(before, attachments@));
                    },
                    _ => {},
                }
                match self.instructions@[i] {
                    IR::BeginRendering { attachments, .. } => {
                        assert forall|k: int| 0 <= k < attachments@.len() implies (#[trigger] attachments@[k]).1.0 < self.instructions@.len() && self.instructions@[attachments@[k].1.0 as int] matches IR::Constant(Constant::Access(_)) by {
                            let j = attachments@[k].1.0 as int;
                            assert(before[j] is Constant);
                            assert(j != id.0);
                        }
                    },
                    IR::BeginCompute { attachments, .. } => {
                        assert forall|k: int| 0 <= k < attachments@.len() implies (#[trigger] attachments@[k]).1.0 < self.instructions@.len() && self.instructions@[attachments@[k].1.0 as int] matches IR::Constant(Constant::Access(_)) by {
                            let j = attachments@[k].1.0 as int;
                            assert(before[j] is Constant);
                            assert(j != id.0);
                        }
                    },
                    _ => {},
                }
            }
        }
        id
    }
}

/// The format, sample count and extent of an image; the extent is known only for an image
/// constructed at a constant one.
#[derive(Debug, Clone, Copy, PartialEq, Eq, Structural)]
pub struct ImageType {
    pub format: i32,
    pub samples: u32,
    pub extent: Option<Extent3D>,
}

pub open spec fn image_type_spec(instrs: Seq<IR>, id: ValueId) -> Option<ImageType> {
    match resolve_spec(instrs, id, MAX_RESOLVE_DEPTH as nat) {
        Some(base) => match instrs[base.0 as int] {
            IR::ConstructImage { format, samples, extent, .. } => Some(ImageType {
                format,
                samples,
                extent: if extent.0 < instrs.len() && instrs[extent.0 as int] is Constant && instrs[extent.0 as int]->Constant_0 is Extent3D {
                    Some(instrs[extent.0 as int]->Constant_0->Extent3D_0)
                } else {
                    None
                },
            }),
            IR::SwapchainImage { format, samples, .. } => Some(ImageType { format, samples, extent: None }),
            _ => None,
        },
        None => None,
    }
}

pub open spec fn is_image_spec(instrs: Seq<IR>, id: ValueId) -> bool {
    match resolve_spec(instrs, id, MAX_RESOLVE_DEPTH as nat) {
        Some(base) => instrs[base.0 as int] is ConstructImage || instrs[base.0 as int] is SwapchainImage,
        None => false,
    }
}

pub open spec fn is_buffer_spec(instrs: Seq<IR>, id: ValueId) -> bool {
    let root = root_spec(instrs, id, MAX_RESOLVE_DEPTH as nat);
    root.0 < instrs.len() && instrs[root.0 as int] is ConstructBuffer
}

pub open spec fn buffer_size_spec(instrs: Seq<IR>, id: ValueId) -> Option<u64> {
    match resolve_spec(instrs, id, MAX_RESOLVE_DEPTH as nat) {
        Some(base) => match instrs[base.0 as int] {
            IR::ConstructBuffer { buffer, size, .. } => if buffer.handle == 0 {
                if size.0 < instrs.len() && instrs[size.0 as int] is Constant && instrs[size.0 as int]->Constant_0 is U32 {
                    Some(instrs[size.0 as int]->Constant_0->U32_0 as u64)
                } else {
                    None
                }
            } else {
                Some(buffer.size)
            },
            _ => None,
        },
        None => None,
    }
}

proof fn lemma_resolve_in_range(instrs: Seq<IR>, id: ValueId, fuel: nat)
    ensures
        resolve_spec(instrs, id, fuel) matches Some(b) ==> b.0 < instrs.len(),
    decreases fuel,
{
    if fuel > 0 && id.0 < instrs.len() {
        match underlying_object_spec(instrs[id.0 as int]) {
            UnderlyingObject::Forwards(next) => lemma_resolve_in_range(instrs, next, (fuel - 1) as nat),
            UnderlyingObject::Element(next) => lemma_resolve_in_range(instrs, next, (fuel - 1) as nat),
            _ => {},
        }
    }
}

/// The resource `id` stands for, followed back through forwarding instructions and array
/// elements for at most [`MAX_RESOLVE_DEPTH`] steps.
pub fn resolve_resource(instrs: &Vec<IR>, id: ValueId) -> (r: Option<ValueId>)
    ensures
        r == resolve_spec(instrs@, id, MAX_RESOLVE_DEPTH as nat),
        r matches Some(b) ==> b.0 < instrs@.len(),
{
    proof {
        lemma_resolve_in_range(instrs@, id, MAX_RESOLVE_DEPTH as nat);
    }
    let mut current = id;
    let mut depth: usize = 0;
    while depth < MAX_RESOLVE_DEPTH
        invariant
            depth <= MAX_RESOLVE_DEPTH,
            resolve_spec(instrs@, id, MAX_RESOLVE_DEPTH as nat) == resolve_spec(
                instrs@,
                current,
                (MAX_RESOLVE_DEPTH - depth) as nat,
            ),
        decreases MAX_RESOLVE_DEPTH - depth,
    {
        if current.0 as usize >= instrs.len() {
            return None;
        }
        match underlying_object(&instrs[current.0 as usize]) {
            UnderlyingObject::Base => {
                return Some(current);
            },
            UnderlyingObject::Forwards(next) => {
                current = next;
            },
            UnderlyingObject::Element(next) => {
                current = next;
            },
            UnderlyingObject::NoResource => {
                return None;
            },
        }
        depth = depth + 1;
    }
    None
}

/// `attachments` with `depth` after them, read and written as a depth target.
fn with_depth(attachments: &[(ValueId, Access)], depth: ValueId) -> (r: Vec<(ValueId, Access)>)
    ensures
        r@ == attachments@.push((depth, Access(ACCESS_DEPTH_STENCIL_READ | ACCESS_DEPTH_STENCIL_WRITE))),
{
    let mut all: Vec<(ValueId, Access)> = Vec::new();
    let mut i: usize = 0;
    while i < attachments.len()
        invariant
            i <= attachments@.len(),
            all@ == attachments@.subrange(0, i as int),
        decreases attachments@.len() - i,
    {
        all.push(attachments[i]);
        proof {
            assert(attachments@.subrange(0, i + 1) =~= attachments@.subrange(0, i as int).push(attachments@[i as int]));
        }
        i = i + 1;
    }
    all.push((depth, Access(ACCESS_DEPTH_STENCIL_READ | ACCESS_DEPTH_STENCIL_WRITE)));
    proof {
        assert(attachments@.subrange(0, attachments@.len() as int) =~= attachments@);
    }
    all
}

/// The value a barrier on `id` is keyed by: `id` followed back through forwarding
/// instructions, for at most [`MAX_RESOLVE_DEPTH`] steps.
pub fn resource_root(instrs: &Vec<IR>, id: ValueId) -> (r: ValueId)
    ensures
        r == root_spec(instrs@, id, MAX_RESOLVE_DEPTH as nat),
{
    let mut current = id;
    let mut depth: usize = 0;
    while depth < MAX_RESOLVE_DEPTH
        invariant
            depth <= MAX_RESOLVE_DEPTH,
            root_spec(instrs@, id, MAX_RESOLVE_DEPTH as nat) == root_spec(
                instrs@,
                current,
                (MAX_RESOLVE_DEPTH - depth) as nat,
            ),
        decreases MAX_RESOLVE_DEPTH - depth,
    {
        if current.0 as usize >= instrs.len() {
            return current;
        }
        match underlying_object(&instrs[current.0 as usize]) {
            UnderlyingObject::Forwards(next) => {
                current = next;
            },
            _ => {
                return current;
            },
        }
        depth = depth + 1;
    }
    current
}

pub fn is_image(instrs: &Vec<IR>, id: ValueId) -> (r: bool)
    ensures
        r == is_image_spec(instrs@, id),
{
    match resolve_resource(instrs, id) {
        Some(base) => matches!(&instrs[base.0 as usize], IR::ConstructImage { .. } | IR::SwapchainImage { .. }),
        None => false,
    }
}

pub fn is_buffer(instrs: &Vec<IR>, id: ValueId) -> (r: bool)
    ensures
        r == is_buffer_spec(instrs@, id),
{
    let root = resource_root(instrs, id);
    (root.0 as usize) < instrs.len() && matches!(&instrs[root.0 as usize], IR::ConstructBuffer { .. })
}

pub fn resolve_image(instrs: &Vec<IR>, id: ValueId) -> (r: Option<ImageType>)
    ensures
        r == image_type_spec(instrs@, id),
{
    match resolve_resource(instrs, id) {
        Some(base) => match &instrs[base.0 as usize] {
            IR::ConstructImage { format, samples, extent, .. } => {
                let known = if (extent.0 as usize) < instrs.len() {
                    match &instrs[extent.0 as usize] {
                        IR::Constant(Constant::Extent3D(e)) => Some(*e),
                        _ => None,
                    }
                } else {
                    None
                };
                Some(ImageType { format: *format, samples: *samples, extent: known })
            },
            IR::SwapchainImage { format, samples, .. } => Some(
                ImageType { format: *format, samples: *samples, extent: None },
            ),
            _ => None,
        },
        None => None,
    }
}

/// The byte size of the buffer `id` stands for, where it can be read here: the handle's size
/// for a buffer the caller owns, a 32-bit size constant for one the graph allocates.
pub fn resolve_buffer_size(instrs: &Vec<IR>, id: ValueId) -> (r: Option<u64>)
    ensures
        r == buffer_size_spec(instrs@, id),
{
    match resolve_resource(instrs, id) {
        Some(base) => match &instrs[base.0 as usize] {
            IR::ConstructBuffer { buffer, size, .. } => {
                if buffer.handle == 0 {
                    if (size.0 as usize) < instrs.len() {
                        match &instrs[size.0 as usize] {
                            IR::Constant(Constant::U32(v)) => Some(*v as u64),
                            _ => None,
                        }
                    } else {
                        None
                    }
                } else {
                    Some(buffer.size)
                }
            },
            _ => None,
        },
        None => None,
    }
}

impl Module {
    /// The instructions recorded so far.
    pub fn instructions(&self) -> (r: &Vec<IR>)
        ensures
            r@ == self.instrs(),
    {
        &self.instructions
    }

    /// Acquires the next image of the swapchain a variable holds: the image of the format and
    /// sample count given.
    pub fn acquire_next_image_from(&mut self, swapchain: ValueId, format: i32, samples: u32) -> (r: ValueId)
        requires
            old(self).wf(),
            old(self).room(),
        ensures
            final(self).wf(),
            final(self).extends(old(self)),
            final(self).same_frame(old(self)),
            final(self).instrs().len() <= old(self).instrs().len() + 3,
            r.0 == final(self).instrs().len() - 1,
            final(self).instrs()[r.0 as int] == (IR::SwapchainImage {
                swapchain,
                acquire: ValueId((r.0 - 1) as u32),
                format,
                samples,
            }),
            final(self).instrs()[r.0 - 1] == (IR::AcquireNextImage { swapchain }),
    {
        self.lower_type(Type::Image { format, samples });
        let acquire = self.emit(IR::AcquireNextImage { swapchain });
        self.emit(IR::SwapchainImage { swapchain, acquire, format, samples })
    }

    /// Acquires the next image of `swapchain`, through a variable named "swapchain" that
    /// holds it.
    pub fn acquire_next_image(&mut self, swapchain: &SwapChain) -> (r: ValueId)
        requires
            old(self).wf(),
            old(self).room(),
        ensures
            final(self).wf(),
            final(self).extends(old(self)),
            final(self).instrs().len() <= old(self).instrs().len() + 5,
            r.0 == final(self).instrs().len() - 1,
            final(self).instrs()[r.0 as int] matches IR::SwapchainImage { format, samples, .. } && format
                == swapchain.spec_format() && samples == swapchain.spec_samples(),
            final(self).variable_list().last().value matches Value::Swapchain(s) && s.handle == swapchain.handle
                && s.attachments@ == swapchain.attachments@,
    {
        let variable = self.declare_var(
            VariableKind::Swapchain,
            "swapchain",
            Value::Swapchain(swapchain.acquired()),
        );
        let format = swapchain.format();
        let samples = swapchain.samples();
        self.lower_type(Type::Image { format, samples });
        let acquire = self.emit(IR::AcquireNextImage { swapchain: variable });
        self.emit(IR::SwapchainImage { swapchain: variable, acquire, format, samples })
    }

    /// Hands `resource` over at `access` to the `dst_domain` queues.
    pub fn release(&mut self, resource: ValueId, access: Access, dst_domain: u32) -> (r: ValueId)
        requires
            old(self).wf(),
            old(self).room(),
        ensures
            final(self).wf(),
            final(self).extends(old(self)),
            final(self).same_frame(old(self)),
            final(self).instrs().len() <= old(self).instrs().len() + 2,
            r.0 == final(self).instrs().len() - 1,
            final(self).instrs()[r.0 as int] matches IR::Release { resource: res, access: a, dst_domain: d } && res
                == resource && d == dst_domain && is_constant(final(self).instrs(), a, Constant::Access(access)),
    {
        let access = self.lower_access(access);
        self.emit(IR::Release { resource, access, dst_domain })
    }

    /// Hands an image over to be presented.
    pub fn present(&mut self, attachment: ValueId) -> (r: ValueId)
        requires
            old(self).wf(),
            old(self).room(),
        ensures
            final(self).wf(),
            final(self).extends(old(self)),
            final(self).same_frame(old(self)),
            final(self).instrs().len() <= old(self).instrs().len() + 2,
            r.0 == final(self).instrs().len() - 1,
            final(self).instrs()[r.0 as int] matches IR::Release { resource: res, access: a, dst_domain: d } && res
                == attachment && d == DOMAIN_PRESENT && is_constant(
                final(self).instrs(),
                a,
                Constant::Access(Access(ACCESS_PRESENT)),
            ),
    {
        self.release(attachment, Access(ACCESS_PRESENT), DOMAIN_PRESENT)
    }

    /// Blits `src` onto `dst` with a linear filter.
    pub fn blit(&mut self, src: ValueId, dst: ValueId) -> (r: ValueId)
        requires
            old(self).wf(),
            old(self).room(),
        ensures
            final(self).wf(),
            final(self).instrs() == old(self).instrs().push(IR::Blit { src, dst, filter: FILTER_LINEAR }),
            final(self).extends(old(self)),
            final(self).same_frame(old(self)),
            r.0 == old(self).instrs().len(),
    {
        self.blit_filtered(src, dst, FILTER_LINEAR)
    }

    /// Blits `src` onto `dst` with `filter`.
    pub fn blit_filtered(&mut self, src: ValueId, dst: ValueId, filter: i32) -> (r: ValueId)
        requires
            old(self).wf(),
            old(self).room(),
        ensures
            final(self).wf(),
            final(self).instrs() == old(self).instrs().push(IR::Blit { src, dst, filter }),
            final(self).extends(old(self)),
            final(self).same_frame(old(self)),
            r.0 == old(self).instrs().len(),
    {
        self.emit(IR::Blit { src, dst, filter })
    }

    /// Copies `buffer` into the whole of `image`: mip 0 at the image's extent where that is
    /// known, or however big the image turns out to be where it is bound or sized when the
    /// program runs. A copy into a value that is no image, or of no extent, is dropped and
    /// gives `image` back.
    pub fn copy_buffer_to_image(&mut self, buffer: ValueId, image: ValueId) -> (r: ValueId)
        requires
            old(self).wf(),
            old(self).room(),
        ensures
            final(self).wf(),
            final(self).same_frame(old(self)),
            match image_type_spec(old(self).instrs(), image) {
                Some(t) if t.extent is Some => {
                    let e = t.extent->0;
                    if e.width == 0 || e.height == 0 || e.depth == 0 {
                        r == image && final(self).instrs() == old(self).instrs()
                    } else {
                        final(self).instrs() == old(self).instrs().push(IR::CopyBufferToImage {
                            buffer,
                            image,
                            region: Some(BufferImageCopy {
                                buffer_offset: 0,
                                image_offset: crate::resource::Offset3D { x: 0, y: 0, z: 0 },
                                image_extent: e,
                                mip_level: 0,
                            }),
                        }) && r.0 == old(self).instrs().len()
                    }
                },
                _ => if is_image_spec(old(self).instrs(), image) {
                    final(self).instrs() == old(self).instrs().push(
                        IR::CopyBufferToImage { buffer, image, region: None },
                    ) && r.0 == old(self).instrs().len()
                } else {
                    r == image && final(self).instrs() == old(self).instrs()
                },
            },
    {
        let known = match resolve_image(&self.instructions, image) {
            Some(t) => t.extent,
            None => None,
        };
        match known {
            Some(extent) => self.copy_buffer_to_image_region(buffer, image, BufferImageCopy::whole(extent)),
            None => {
                if !is_image(&self.instructions, image) {
                    return image;
                }
                self.emit(IR::CopyBufferToImage { buffer, image, region: None })
            },
        }
    }

    /// Copies `buffer` into `region` of `image`; an empty region copies nothing and gives
    /// `image` back.
    pub fn copy_buffer_to_image_region(&mut self, buffer: ValueId, image: ValueId, region: BufferImageCopy) -> (r: ValueId)
        requires
            old(self).wf(),
            old(self).room(),
        ensures
            final(self).wf(),
            final(self).same_frame(old(self)),
            region.image_extent.width == 0 || region.image_extent.height == 0 || region.image_extent.depth == 0
                ==> r == image && final(self).instrs() == old(self).instrs(),
            !(region.image_extent.width == 0 || region.image_extent.height == 0 || region.image_extent.depth == 0)
                ==> final(self).instrs() == old(self).instrs().push(
                IR::CopyBufferToImage { buffer, image, region: Some(region) },
            ) && r.0 == old(self).instrs().len(),
    {
        if region.is_empty() {
            return image;
        }
        self.emit(IR::CopyBufferToImage { buffer, image, region: Some(region) })
    }

    /// Clears `attachment` to `color`.
    pub fn clear(&mut self, attachment: ValueId, color: ClearValue) -> (r: ValueId)
        requires
            old(self).wf(),
            old(self).room(),
        ensures
            final(self).wf(),
            final(self).extends(old(self)),
            final(self).same_frame(old(self)),
            final(self).instrs().len() <= old(self).instrs().len() + 2,
            r.0 == final(self).instrs().len() - 1,
            final(self).instrs()[r.0 as int] matches IR::Clear { attachment: a, color: c } && a == attachment
                && is_constant(final(self).instrs(), c, Constant::ClearValue(color)),
    {
        let color = self.lower_constant(Constant::ClearValue(color));
        self.emit(IR::Clear { attachment, color })
    }

    /// Clears `attachment` to the color the value `color` holds.
    pub fn clear_from(&mut self, attachment: ValueId, color: ValueId) -> (r: ValueId)
        requires
            old(self).wf(),
            old(self).room(),
        ensures
            final(self).wf(),
            final(self).instrs() == old(self).instrs().push(IR::Clear { attachment, color }),
            final(self).extends(old(self)),
            final(self).same_frame(old(self)),
            r.0 == old(self).instrs().len(),
    {
        self.emit(IR::Clear { attachment, color })
    }
}

/// The tip a new instruction of the open pass is chained onto, where the open pass is of the
/// kind wanted (any kind where none is).
pub open spec fn chain_tip(pass: Option<OngoingPass>, wanted: Option<PassKind>) -> Option<ValueId> {
    match pass {
        Some(p) => if wanted is None || wanted == Some(p.kind) { Some(p.tip) } else { None },
        None => None,
    }
}

/// Everything `new` recorded past `old` from `from` on is a constant.
pub open spec fn only_constants(old: Seq<IR>, new: Seq<IR>, upto: int) -> bool {
    forall|i: int| old.len() <= i < upto ==> #[trigger] new[i] is Constant
}

/// `new` is `old` with `make(tip)` chained onto the open pass of the kind wanted (after any
/// constants it lowered), or `old` with at most those constants where no such pass is open.
pub open spec fn chained(old: &Module, new: &Module, wanted: Option<PassKind>, make: spec_fn(ValueId) -> IR) -> bool {
    match chain_tip(old.open_pass(), wanted) {
        Some(tip) => {
            &&& new.instrs().len() > old.instrs().len()
            &&& new.instrs().last() == make(tip)
            &&& only_constants(old.instrs(), new.instrs(), new.instrs().len() - 1)
            &&& new.open_pass() == Some(
                OngoingPass { tip: ValueId((new.instrs().len() - 1) as u32), ..old.open_pass()->0 },
            )
        },
        None => {
            &&& only_constants(old.instrs(), new.instrs(), new.instrs().len() as int)
            &&& new.open_pass() == old.open_pass()
        },
    }
}

/// As [`chained`], for an instruction known by what `ok` says of it and of the tip it was
/// chained onto.
pub open spec fn chained_by(old: &Module, new: &Module, wanted: Option<PassKind>, ok: spec_fn(ValueId, IR) -> bool) -> bool {
    match chain_tip(old.open_pass(), wanted) {
        Some(tip) => {
            &&& new.instrs().len() > old.instrs().len()
            &&& ok(tip, new.instrs().last())
            &&& only_constants(old.instrs(), new.instrs(), new.instrs().len() - 1)
            &&& new.open_pass() == Some(
                OngoingPass { tip: ValueId((new.instrs().len() - 1) as u32), ..old.open_pass()->0 },
            )
        },
        None => {
            &&& only_constants(old.instrs(), new.instrs(), new.instrs().len() as int)
            &&& new.open_pass() == old.open_pass()
        },
    }
}

impl Module {
    fn chainable(&self, wanted: Option<PassKind>) -> (r: Option<ValueId>)
        ensures
            r == chain_tip(self.ongoing_pass, wanted),
    {
        match self.ongoing_pass {
            Some(p) => match wanted {
                None => Some(p.tip),
                Some(kind) => if kind == p.kind { Some(p.tip) } else { None },
            },
            None => None,
        }
    }

    /// Chains `ir`, built on `tip`, onto the open pass.
    fn chain_emit(&mut self, ir: IR) -> (r: ValueId)
        requires
            old(self).wf(),
            old(self).instructions@.len() + 1 < INVALID_ID,
            old(self).ongoing_pass is Some,
            !(ir is BeginRendering) && !(ir is BeginCompute),
        ensures
            final(self).wf(),
            final(self).extends(old(self)),
            final(self).instructions@ == old(self).instructions@.push(ir),
            r.0 == old(self).instructions@.len(),
            final(self).ongoing_pass == Some(OngoingPass { tip: r, ..old(self).ongoing_pass->0 }),
            final(self).blocks == old(self).blocks,
            final(self).label_count == old(self).label_count,
            final(self).current_block == old(self).current_block,
            final(self).variables == old(self).variables,
            final(self).variable_ids == old(self).variable_ids,
    {
        let id = self.emit(ir);
        let open = self.ongoing_pass.unwrap();
        self.ongoing_pass = Some(OngoingPass { kind: open.kind, begin: open.begin, tip: id });
        id
    }

    /// Binds the pipeline later draws of the open rendering pass draw with.
    pub fn bind_graphics_pipeline(&mut self, pipeline: PipelineId)
        requires
            old(self).wf(),
            old(self).room(),
        ensures
            final(self).wf(),
            final(self).extends(old(self)),
            chained(old(self), final(self), Some(PassKind::Rendering), |tip: ValueId| IR::BindPipeline { pass: tip, pipeline, bind_point: BIND_POINT_GRAPHICS }),
    {
        if let Some(tip) = self.chainable(Some(PassKind::Rendering)) {
            self.chain_emit(IR::BindPipeline { pass: tip, pipeline, bind_point: BIND_POINT_GRAPHICS });
        }
    }

    /// Binds the pipeline later dispatches of the open compute pass run.
    pub fn bind_compute_pipeline(&mut self, pipeline: PipelineId)
        requires
            old(self).wf(),
            old(self).room(),
        ensures
            final(self).wf(),
            final(self).extends(old(self)),
            chained(old(self), final(self), Some(PassKind::Compute), |tip: ValueId| IR::BindPipeline { pass: tip, pipeline, bind_point: BIND_POINT_COMPUTE }),
    {
        if let Some(tip) = self.chainable(Some(PassKind::Compute)) {
            self.chain_emit(IR::BindPipeline { pass: tip, pipeline, bind_point: BIND_POINT_COMPUTE });
        }
    }

    fn set_state(&mut self, change: StateChange)
        requires
            old(self).wf(),
            old(self).room(),
        ensures
            final(self).wf(),
            final(self).extends(old(self)),
            match chain_tip(old(self).open_pass(), Some(PassKind::Rendering)) {
                Some(tip) => final(self).instrs() == old(self).instrs().push(IR::SetState { pass: tip, change })
                    && final(self).open_pass() == Some(
                    OngoingPass { tip: ValueId(old(self).instrs().len() as u32), ..old(self).open_pass()->0 },
                ),
                None => final(self).instrs() == old(self).instrs() && final(self).open_pass() == old(self).open_pass(),
            },
    {
        if let Some(tip) = self.chainable(Some(PassKind::Rendering)) {
            self.chain_emit(IR::SetState { pass: tip, change });
        }
    }

    pub fn set_primitive_topology(&mut self, topology: i32)
        requires
            old(self).wf(),
            old(self).room(),
        ensures
            final(self).wf(),
            final(self).extends(old(self)),
            chained(old(self), final(self), Some(PassKind::Rendering), |tip: ValueId| IR::SetState { pass: tip, change: StateChange::PrimitiveTopology(topology) }),
    {
        self.set_state(StateChange::PrimitiveTopology(topology))
    }

    pub fn set_depth(&mut self, depth: DepthState)
        requires
            old(self).wf(),
            old(self).room(),
        ensures
            final(self).wf(),
            final(self).extends(old(self)),
            chained(old(self), final(self), Some(PassKind::Rendering), |tip: ValueId| IR::SetState { pass: tip, change: StateChange::Depth(depth) }),
    {
        self.set_state(StateChange::Depth(depth))
    }

    pub fn set_rasterization(&mut self, rasterization: RasterizationState)
        requires
            old(self).wf(),
            old(self).room(),
        ensures
            final(self).wf(),
            final(self).extends(old(self)),
            chained(old(self), final(self), Some(PassKind::Rendering), |tip: ValueId| IR::SetState { pass: tip, change: StateChange::Rasterization(rasterization) }),
    {
        self.set_state(StateChange::Rasterization(rasterization))
    }

    pub fn set_dynamic_state(&mut self, dynamic: DynamicStateFlags)
        requires
            old(self).wf(),
            old(self).room(),
        ensures
            final(self).wf(),
            final(self).extends(old(self)),
            chained(old(self), final(self), Some(PassKind::Rendering), |tip: ValueId| IR::SetState { pass: tip, change: StateChange::DynamicState(dynamic) }),
    {
        self.set_state(StateChange::DynamicState(dynamic))
    }

    pub fn set_viewport(&mut self, index: u32, viewport: Viewport)
        requires
            old(self).wf(),
            old(self).room(),
        ensures
            final(self).wf(),
            final(self).extends(old(self)),
            chained(old(self), final(self), Some(PassKind::Rendering), |tip: ValueId| IR::SetState { pass: tip, change: StateChange::Viewport { index, viewport } }),
    {
        self.set_state(StateChange::Viewport { index, viewport })
    }

    pub fn set_scissor(&mut self, index: u32, rect: Rect2D)
        requires
            old(self).wf(),
            old(self).room(),
        ensures
            final(self).wf(),
            final(self).extends(old(self)),
            chained(old(self), final(self), Some(PassKind::Rendering), |tip: ValueId| IR::SetState { pass: tip, change: StateChange::Scissor { index, rect } }),
    {
        self.set_state(StateChange::Scissor { index, rect })
    }

    /// Sets how color attachment `index` blends.
    pub fn set_color_blend(&mut self, index: u32, blend: ColorBlendAttachmentState)
        requires
            old(self).wf(),
            old(self).room(),
        ensures
            final(self).wf(),
            final(self).extends(old(self)),
            chained(old(self), final(self), Some(PassKind::Rendering), |tip: ValueId| IR::SetState { pass: tip, change: StateChange::ColorBlend { index: Some(index), blend } }),
    {
        self.set_state(StateChange::ColorBlend { index: Some(index), blend })
    }

    /// Sets how every color attachment blends.
    pub fn broadcast_color_blend(&mut self, blend: ColorBlendAttachmentState)
        requires
            old(self).wf(),
            old(self).room(),
        ensures
            final(self).wf(),
            final(self).extends(old(self)),
            chained(old(self), final(self), Some(PassKind::Rendering), |tip: ValueId| IR::SetState { pass: tip, change: StateChange::ColorBlend { index: None, blend } }),
    {
        self.set_state(StateChange::ColorBlend { index: None, blend })
    }

    /// Pushes `data` at byte `offset` of the push-constant block of the open pass, of either kind.
    pub fn push_constant_bytes(&mut self, offset: u32, data: &[u8])
        requires
            old(self).wf(),
            old(self).room(),
        ensures
            final(self).wf(),
            final(self).extends(old(self)),
            match chain_tip(old(self).open_pass(), None) {
                Some(tip) => final(self).instrs().len() == old(self).instrs().len() + 1 && (final(self).instrs().last()
                    matches IR::SetState { pass, change: StateChange::PushConstants { offset: o, data: d } } && pass
                    == tip && o == offset && d@ == data@),
                None => final(self).instrs() == old(self).instrs() && final(self).open_pass() == old(self).open_pass(),
            },
    {
        if let Some(tip) = self.chainable(None) {
            let bytes = copy_slice(data);
            self.chain_emit(IR::SetState { pass: tip, change: StateChange::PushConstants { offset, data: bytes } });
        }
    }

    /// Pushes the bytes a bytes variable holds when the program runs, at byte `offset`; a value
    /// that is no bytes variable is refused.
    pub fn push_constants_from_at(&mut self, offset: u32, variable: ValueId)
        requires
            old(self).wf(),
            old(self).room(),
        ensures
            final(self).wf(),
            final(self).extends(old(self)),
            match variable_bytes_size(old(self).instrs(), variable) {
                Some(size) => chained(old(self), final(self), None, |tip: ValueId| IR::SetState { pass: tip, change: StateChange::PushConstantsFrom { offset, size, source: variable } }),
                None => final(self).instrs() == old(self).instrs() && final(self).open_pass() == old(self).open_pass(),
            },
    {
        let size = match self.variable_bytes_size(variable) {
            Some(size) => size,
            None => { return; },
        };
        if let Some(tip) = self.chainable(None) {
            self.chain_emit(IR::SetState { pass: tip, change: StateChange::PushConstantsFrom { offset, size, source: variable } });
        }
    }

    pub fn push_constants_from(&mut self, variable: ValueId)
        requires
            old(self).wf(),
            old(self).room(),
        ensures
            final(self).wf(),
            final(self).extends(old(self)),
            match variable_bytes_size(old(self).instrs(), variable) {
                Some(size) => chained(old(self), final(self), None, |tip: ValueId| IR::SetState { pass: tip, change: StateChange::PushConstantsFrom { offset: 0, size, source: variable } }),
                None => final(self).instrs() == old(self).instrs() && final(self).open_pass() == old(self).open_pass(),
            },
    {
        self.push_constants_from_at(0, variable)
    }

    /// Pushes the device address of `buffer` at byte `offset`.
    pub fn push_constant_address(&mut self, offset: u32, buffer: ValueId)
        requires
            old(self).wf(),
            old(self).room(),
        ensures
            final(self).wf(),
            final(self).extends(old(self)),
            chained(old(self), final(self), None, |tip: ValueId| IR::SetState { pass: tip, change: StateChange::PushConstantAddress { offset, buffer } }),
    {
        if let Some(tip) = self.chainable(None) {
            self.chain_emit(IR::SetState { pass: tip, change: StateChange::PushConstantAddress { offset, buffer } });
        }
    }

    /// The size of the bytes variable at `id`, if it is one.
    fn variable_bytes_size(&self, id: ValueId) -> (r: Option<u32>)
        ensures
            r == variable_bytes_size(self.instrs(), id),
    {
        if (id.0 as usize) < self.instructions.len() {
            match &self.instructions[id.0 as usize] {
                IR::Variable { kind: VariableKind::Bytes(size), .. } => Some(*size),
                _ => None,
            }
        } else {
            None
        }
    }
}

pub open spec fn variable_bytes_size(instrs: Seq<IR>, id: ValueId) -> Option<u32> {
    if id.0 < instrs.len() {
        match instrs[id.0 as int] {
            IR::Variable { kind: VariableKind::Bytes(size), .. } => Some(size),
            _ => None,
        }
    } else {
        None
    }
}

fn copy_slice(data: &[u8]) -> (r: Vec<u8>)
    ensures
        r@ == data@,
{
    let mut r: Vec<u8> = Vec::with_capacity(data.len());
    let mut i: usize = 0;
    while i < data.len()
        invariant
            i <= data@.len(),
            r@ == data@.subrange(0, i as int),
        decreases data@.len() - i,
    {
        r.push(data[i]);
        i = i + 1;
    }
    r
}

/// The access bits of the access constant at `id`.
pub open spec fn access_bits_at(instrs: Seq<IR>, id: ValueId) -> u32 {
    if id.0 < instrs.len() {
        match instrs[id.0 as int] {
            IR::Constant(Constant::Access(a)) => a.0,
            _ => 0,
        }
    } else {
        0
    }
}

/// A pass's attachments with each access constant read out.
pub open spec fn attachment_accesses(instrs: Seq<IR>, atts: Seq<(ValueId, ValueId)>) -> Seq<(ValueId, u32)> {
    Seq::new(atts.len(), |k: int| (atts[k].0, access_bits_at(instrs, atts[k].1)))
}

/// Where `resource` first appears in `list`, or -1.
pub open spec fn index_of(list: Seq<(ValueId, u32)>, resource: ValueId) -> int
    decreases list.len(),
{
    if list.len() == 0 {
        -1
    } else {
        let i = index_of(list.drop_last(), resource);
        if i >= 0 {
            i
        } else if list.last().0 == resource {
            list.len() - 1
        } else {
            -1
        }
    }
}

/// `list` with `bits` added to what it declares of `resource`: merged into its entry where
/// it has one, a new entry at the end where it has none.
pub open spec fn merge_one(list: Seq<(ValueId, u32)>, resource: ValueId, bits: u32) -> Seq<(ValueId, u32)> {
    let i = index_of(list, resource);
    if i >= 0 {
        list.update(i, (resource, list[i].1 | bits))
    } else {
        list.push((resource, bits))
    }
}

/// The attachments a list of declarations comes to, each merged in turn.
pub open spec fn merged_all(pairs: Seq<(ValueId, u32)>) -> Seq<(ValueId, u32)>
    decreases pairs.len(),
{
    if pairs.len() == 0 {
        seq![]
    } else {
        merge_one(merged_all(pairs.drop_last()), pairs.last().0, pairs.last().1)
    }
}

proof fn lemma_index_of(list: Seq<(ValueId, u32)>, resource: ValueId, k: int)
    requires
        0 <= k <= list.len(),
        forall|j: int| 0 <= j < k ==> list[j].0 != resource,
        k < list.len() ==> list[k].0 == resource,
    ensures
        index_of(list, resource) == (if k < list.len() { k } else { -1 }),
    decreases list.len(),
{
    if list.len() > 0 {
        if k < list.len() - 1 {
            lemma_index_of(list.drop_last(), resource, k);
        } else {
            lemma_index_of(list.drop_last(), resource, list.len() - 1);
        }
    }
}

proof fn lemma_index_of_bounds(list: Seq<(ValueId, u32)>, resource: ValueId)
    ensures
        -1 <= index_of(list, resource) < list.len(),
        index_of(list, resource) >= 0 ==> list[index_of(list, resource)].0 == resource,
    decreases list.len(),
{
    if list.len() > 0 {
        lemma_index_of_bounds(list.drop_last(), resource);
    }
}

/// `new` is `old` with the open pass now reaching `resource` at `bits` on top of whatever it
/// already declared of it: merged into the pass's entry for it, or a new entry at the end.
/// Only the instruction that opened the pass changes, besides the constant lowered for the
/// merged access; with no pass open nothing changes at all.
pub open spec fn declares(old: &Module, new: &Module, resource: ValueId, bits: u32) -> bool {
    &&& new.open_pass() == old.open_pass()
    &&& new.same_frame(old)
    &&& old.open_pass() is None ==> new.instrs() == old.instrs()
    &&& old.open_pass() is None ==> new.extends(old)
    &&& old.open_pass() matches Some(p) ==> new.extends_except(old, p.begin.0 as int)
    &&& old.open_pass() matches Some(p) ==> {
                let b = p.begin.0 as int;
                &&& new.instrs().len() <= old.instrs().len() + 1
                &&& forall|i: int| 0 <= i < old.instrs().len() && i != b ==> #[trigger] new.instrs()[i]
                    == old.instrs()[i]
                &&& forall|i: int| old.instrs().len() <= i < new.instrs().len()
                    ==> #[trigger] new.instrs()[i] is Constant
                &&& match (old.instrs()[b], new.instrs()[b]) {
                    (IR::BeginRendering { attachments: x, render_area: r, name: n }, IR::BeginRendering {
                        attachments: y,
                        render_area: r2,
                        name: n2,
                    }) => r == r2 && n == n2 && attachment_accesses(new.instrs(), y@) == merge_one(
                        attachment_accesses(old.instrs(), x@),
                        resource,
                        bits,
                    ),
                    (IR::BeginCompute { attachments: x, name: n }, IR::BeginCompute { attachments: y, name: n2 }) => n
                        == n2 && attachment_accesses(new.instrs(), y@) == merge_one(
                        attachment_accesses(old.instrs(), x@),
                        resource,
                        bits,
                    ),
                    (before, after) => !(before is BeginRendering || before is BeginCompute) && after == before,
                }
            }
}

impl Module {
    /// Declares that the open pass reaches `resource` at `access`, on top of whatever it
    /// already declared of it. Outside a pass the declaration is dropped.
    pub fn access(&mut self, resource: ValueId, access: Access)
        requires
            old(self).wf(),
            old(self).room(),
        ensures
            final(self).wf(),
            declares(old(self), final(self), resource, access.0),
    {
        let open = match self.ongoing_pass {
            Some(open) => open,
            None => { return; },
        };
        let begin = open.begin.0 as usize;
        let (atts, is_rendering, render_area, name) = match &self.instructions[begin] {
            IR::BeginRendering { attachments, render_area, name } => (copy_pairs(attachments), true, *render_area, *name),
            IR::BeginCompute { attachments, name } => (copy_pairs(attachments), false, ValueId(INVALID_ID), *name),
            _ => { return; },
        };
        let ghost old_instrs = self.instructions@;
        proof {
            assert(declared_ok(old_instrs, atts@));
        }
        let mut k: usize = 0;
        while k < atts.len() && atts[k].0 != resource
            invariant
                k <= atts@.len(),
                forall|j: int| 0 <= j < k ==> atts@[j].0 != resource,
            decreases atts@.len() - k,
        {
            k = k + 1;
        }
        let ghost listed = attachment_accesses(old_instrs, atts@);
        proof {
            lemma_index_of(listed, resource, k as int);
        }
        let merged = if k < atts.len() {
            let existing = atts[k].1;
            let bits = match &self.instructions[existing.0 as usize] {
                IR::Constant(Constant::Access(a)) => a.0,
                _ => 0,
            };
            Access(bits | access.0)
        } else {
            access
        };
        let access_id = self.lower_access(merged);
        let ghost lowered = self.instructions@;
        let mut updated = atts;
        if k < updated.len() {
            updated.set(k, (resource, access_id));
        } else {
            updated.push((resource, access_id));
        }
        proof {
            assert forall|j: int| 0 <= j < atts@.len() implies access_bits_at(lowered, (#[trigger] atts@[j]).1)
                == access_bits_at(old_instrs, atts@[j].1) by {
                assert(atts@[j].1.0 < old_instrs.len());
                assert(lowered[atts@[j].1.0 as int] == old_instrs[atts@[j].1.0 as int]);
            }
            assert(attachment_accesses(lowered, updated@) =~= merge_one(listed, resource, access.0));
        }
        let ir = if is_rendering {
            IR::BeginRendering { attachments: updated, render_area, name }
        } else {
            IR::BeginCompute { attachments: updated, name }
        };
        self.instructions.set(begin, ir);
        proof {
            let now = self.instructions@;
            assert forall|j: int| 0 <= j < updated@.len() implies access_bits_at(now, (#[trigger] updated@[j]).1)
                == access_bits_at(lowered, updated@[j].1) by {
                if j < atts@.len() && j != k {
                    assert(atts@[j].1.0 < old_instrs.len());
                    assert(old_instrs[atts@[j].1.0 as int] is Constant);
                }
                assert(lowered[updated@[j].1.0 as int] is Constant);
            }
            assert(attachment_accesses(now, updated@) =~= attachment_accesses(lowered, updated@));
            assert(forall|i: int| 0 <= i < old_instrs.len() && i != begin as int ==> #[trigger] now[i] == old_instrs[i]);
            assert(forall|i: int| old_instrs.len() <= i < now.len() ==> #[trigger] now[i] is Constant);
            assert(now.len() <= old_instrs.len() + 1);
            assert(old_instrs == old(self).instructions@);
            if is_rendering {
                assert(now[begin as int] matches IR::BeginRendering { attachments: y, .. } && y@ == updated@);
            }
            assert forall|i: int| 0 <= i < self.types@.len() implies {
                let (ty, tid) = #[trigger] self.types@[i];
                tid.0 < self.instructions@.len() && self.instructions@[tid.0 as int] == IR::Type(ty)
            } by {
                let (ty, tid) = self.types@[i];
                assert(lowered[tid.0 as int] == IR::Type(ty));
            }
            assert forall|i: int| 0 <= i < self.constants@.len() implies {
                let (c, cid) = #[trigger] self.constants@[i];
                cid.0 < self.instructions@.len() && (self.instructions@[cid.0 as int] matches IR::Constant(kk)
                    && constant_eq(kk, c))
            } by {
                let (c, cid) = self.constants@[i];
                assert(lowered[cid.0 as int] is Constant);
            }
            assert forall|i: int| 0 <= i < self.instructions@.len() implies match #[trigger] self.instructions@[i] {
                IR::BeginRendering { attachments, .. } => declared_ok(self.instructions@, attachments@),
                IR::BeginCompute { attachments, .. } => declared_ok(self.instructions@, attachments@),
                _ => true,
            } by {
                if i != begin as int {
                    match lowered[i] {
                        IR::BeginRendering { attachments, .. } => {
                            assert(declared_ok(lowered, attachments@));
                            assert forall|q: int| 0 <= q < attachments@.len() implies (#[trigger] attachments@[q]).1.0 < self.instructions@.len() && self.instructions@[attachments@[q].1.0 as int] matches IR::Constant(Constant::Access(_)) by {
                                assert(lowered[attachments@[q].1.0 as int] is Constant);
                            }
                        },
                        IR::BeginCompute { attachments, .. } => {
                            assert(declared_ok(lowered, attachments@));
                            assert forall|q: int| 0 <= q < attachments@.len() implies (#[trigger] attachments@[q]).1.0 < self.instructions@.len() && self.instructions@[attachments@[q].1.0 as int] matches IR::Constant(Constant::Access(_)) by {
                                assert(lowered[attachments@[q].1.0 as int] is Constant);
                            }
                        },
                        _ => {},
                    }
                } else {
                    assert forall|q: int| 0 <= q < updated@.len() implies (#[trigger] updated@[q]).1.0 < self.instructions@.len() && self.instructions@[updated@[q].1.0 as int] matches IR::Constant(Constant::Access(_)) by {
                        if q < atts@.len() && q != k {
                            assert(atts@[q].1.0 < old_instrs.len());
                            assert(old_instrs[atts@[q].1.0 as int] is Constant);
                            assert(lowered[atts@[q].1.0 as int] == old_instrs[atts@[q].1.0 as int]);
                        }
                        assert(lowered[updated@[q].1.0 as int] is Constant);
                    }
                }
            }
        }
    }
}

fn copy_pairs(v: &Vec<(ValueId, ValueId)>) -> (r: Vec<(ValueId, ValueId)>)
    ensures
        r@ == v@,
{
    let mut r: Vec<(ValueId, ValueId)> = Vec::with_capacity(v.len());
    let mut i: usize = 0;
    while i < v.len()
        invariant
            i <= v@.len(),
            r@ == v@.subrange(0, i as int),
        decreases v@.len() - i,
    {
        r.push(v[i]);
        i = i + 1;
    }
    r
}

/// What a list of declarations asks for, as access bits.
pub open spec fn declaration_bits(atts: Seq<(ValueId, Access)>) -> Seq<(ValueId, u32)> {
    Seq::new(atts.len(), |k: int| (atts[k].0, atts[k].1.0))
}

/// The instruction at `b` opens a pass of `kind` whose attachments come to what `atts` asks for.
pub open spec fn opens_pass(
    instrs: Seq<IR>,
    b: int,
    kind: PassKind,
    atts: Seq<(ValueId, Access)>,
    area: ValueId,
) -> bool {
    0 <= b < instrs.len() && match instrs[b] {
        IR::BeginRendering { attachments, render_area, name } => kind == PassKind::Rendering && render_area == area
            && name == ValueId(INVALID_ID) && attachment_accesses(instrs, attachments@) == merged_all(
            declaration_bits(atts),
        ),
        IR::BeginCompute { attachments, name } => kind == PassKind::Compute && name == ValueId(INVALID_ID)
            && attachment_accesses(instrs, attachments@) == merged_all(declaration_bits(atts)),
        _ => false,
    }
}

impl Module {
    fn begin_pass(&mut self, kind: PassKind, attachments: &[(ValueId, Access)], render_area: ValueId) -> (r: ValueId)
        requires
            old(self).wf(),
            old(self).instrs().len() + attachments@.len() + 66 <= INVALID_ID,
            old(self).label_count + 4 <= INVALID_ID,
            old(self).variables@.len() + 1 <= u32::MAX,
        ensures
            final(self).wf(),
            final(self).extends(old(self)),
            r.0 == old(self).instrs().len(),
            final(self).instrs().len() <= old(self).instrs().len() + 1 + attachments@.len(),
            final(self).open_pass() == Some(OngoingPass { kind, begin: r, tip: r }),
            opens_pass(final(self).instrs(), r.0 as int, kind, attachments@, if kind == PassKind::Rendering { render_area } else { ValueId(INVALID_ID) }),
            final(self).blocks == old(self).blocks,
            final(self).label_count == old(self).label_count,
            final(self).current_block == old(self).current_block,
            final(self).variables == old(self).variables,
            final(self).variable_ids == old(self).variable_ids,
    {
        let ir = match kind {
            PassKind::Rendering => IR::BeginRendering { attachments: Vec::new(), render_area, name: ValueId(INVALID_ID) },
            PassKind::Compute => IR::BeginCompute { attachments: Vec::new(), name: ValueId(INVALID_ID) },
        };
        let id = self.emit(ir);
        self.ongoing_pass = Some(OngoingPass { kind, begin: id, tip: id });
        let ghost start = *self;
        proof {
            assert(declaration_bits(attachments@).take(0) =~= seq![]);
            assert(attachment_accesses(self.instructions@, seq![]) =~= seq![]);
        }
        let mut i: usize = 0;
        while i < attachments.len()
            invariant
                self.wf(),
                i <= attachments@.len(),
                self.extends_except(&start, id.0 as int),
                start.extends(old(self)),
                old(self).instrs().len() == id.0,
                self.instrs().len() <= start.instrs().len() + i,
                start.instrs().len() == id.0 + 1,
                id.0 + 1 + attachments@.len() + 65 <= INVALID_ID,
                self.label_count + 4 <= INVALID_ID,
                self.variables@.len() + 1 <= u32::MAX,
                self.ongoing_pass == Some(OngoingPass { kind, begin: id, tip: id }),
                self.blocks == old(self).blocks,
                self.label_count == old(self).label_count,
                self.current_block == old(self).current_block,
                self.variables == old(self).variables,
                self.variable_ids == old(self).variable_ids,
                match self.instructions@[id.0 as int] {
                    IR::BeginRendering { attachments: y, render_area: a, name } => kind == PassKind::Rendering && a
                        == render_area && name == ValueId(INVALID_ID) && attachment_accesses(self.instructions@, y@)
                        == merged_all(declaration_bits(attachments@).take(i as int)),
                    IR::BeginCompute { attachments: y, name } => kind == PassKind::Compute && name == ValueId(
                        INVALID_ID,
                    ) && attachment_accesses(self.instructions@, y@) == merged_all(
                        declaration_bits(attachments@).take(i as int),
                    ),
                    _ => false,
                },
            decreases attachments@.len() - i,
        {
            let (resource, access) = attachments[i];
            let ghost before = *self;
            self.access(resource, access);
            i = i + 1;
            proof {
                assert forall|j: int| 0 <= j < start.instructions@.len() && j != id.0 implies #[trigger] self.instructions@[j]
                    == start.instructions@[j] by {
                    assert(self.instructions@[j] == before.instructions@[j]);
                }
                assert(declaration_bits(attachments@).take(i as int).drop_last() =~= declaration_bits(
                    attachments@,
                ).take(i - 1));
            }
        }
        proof {
            assert(declaration_bits(attachments@).take(attachments@.len() as int) =~= declaration_bits(attachments@));
            assert forall|j: int| 0 <= j < old(self).instructions@.len() implies #[trigger] self.instructions@[j]
                == old(self).instructions@[j] by {
                assert(self.instructions@[j] == start.instructions@[j]);
            }
        }
        id
    }

    /// Opens a rendering pass over `attachments`, each declared with the access it is reached
    /// at: color targets at color access, the depth target at depth access, anything else the
    /// pass reads or writes at that access. An earlier pass still open is closed first.
    pub fn begin_rendering(&mut self, attachments: &[(ValueId, Access)])
        requires
            old(self).wf(),
            old(self).room(),
            old(self).instrs().len() + attachments@.len() + 66 <= INVALID_ID,
        ensures
            final(self).wf(),
            final(self).extends(old(self)),
            final(self).instrs().len() <= old(self).instrs().len() + 1 + attachments@.len(),
            final(self).open_pass() == Some(OngoingPass {
                kind: PassKind::Rendering,
                begin: ValueId(old(self).instrs().len() as u32),
                tip: ValueId(old(self).instrs().len() as u32),
            }),
            opens_pass(final(self).instrs(), old(self).instrs().len() as int, PassKind::Rendering, attachments@, ValueId(INVALID_ID)),
    {
        self.begin_pass(PassKind::Rendering, attachments, ValueId(INVALID_ID));
    }

    /// Opens a rendering pass as [`Self::begin_rendering`] does, over a render area of its own.
    pub fn begin_rendering_area(&mut self, attachments: &[(ValueId, Access)], render_area: Extent2D)
        requires
            old(self).wf(),
            old(self).room(),
            old(self).instrs().len() + attachments@.len() + 67 <= INVALID_ID,
        ensures
            final(self).wf(),
            final(self).extends(old(self)),
            final(self).instrs().len() <= old(self).instrs().len() + 2 + attachments@.len(),
            final(self).open_pass() matches Some(p) && p.kind == PassKind::Rendering && p.begin == p.tip
                && old(self).instrs().len() <= p.begin.0 && exists|a: ValueId| #[trigger] opens_pass(
                final(self).instrs(),
                p.begin.0 as int,
                PassKind::Rendering,
                attachments@,
                a,
            ) && is_constant(final(self).instrs(), a, Constant::Extent2D(render_area)),
    {
        let area = self.lower_constant(Constant::Extent2D(render_area));
        let b = self.begin_pass(PassKind::Rendering, attachments, area);
        proof {
            assert(opens_pass(self.instrs(), b.0 as int, PassKind::Rendering, attachments@, area));
        }
    }

    /// Opens a rendering pass as [`Self::begin_rendering`] does, with `depth` as its depth
    /// target, read and written there, after the attachments it is given.
    pub fn begin_rendering_depth(&mut self, attachments: &[(ValueId, Access)], depth: ValueId)
        requires
            old(self).wf(),
            old(self).room(),
            old(self).instrs().len() + attachments@.len() + 67 <= INVALID_ID,
        ensures
            final(self).wf(),
            final(self).extends(old(self)),
            final(self).instrs().len() <= old(self).instrs().len() + 2 + attachments@.len(),
            final(self).open_pass() == Some(OngoingPass {
                kind: PassKind::Rendering,
                begin: ValueId(old(self).instrs().len() as u32),
                tip: ValueId(old(self).instrs().len() as u32),
            }),
            opens_pass(
                final(self).instrs(),
                old(self).instrs().len() as int,
                PassKind::Rendering,
                attachments@.push((depth, Access(ACCESS_DEPTH_STENCIL_READ | ACCESS_DEPTH_STENCIL_WRITE))),
                ValueId(INVALID_ID),
            ),
    {
        let all = with_depth(attachments, depth);
        self.begin_pass(PassKind::Rendering, all.as_slice(), ValueId(INVALID_ID));
    }

    /// Opens a rendering pass as [`Self::begin_rendering_depth`] does, over a render area of
    /// its own.
    pub fn begin_rendering_depth_area(&mut self, attachments: &[(ValueId, Access)], depth: ValueId, render_area: Extent2D)
        requires
            old(self).wf(),
            old(self).room(),
            old(self).instrs().len() + attachments@.len() + 68 <= INVALID_ID,
        ensures
            final(self).wf(),
            final(self).extends(old(self)),
            final(self).instrs().len() <= old(self).instrs().len() + 3 + attachments@.len(),
            final(self).open_pass() matches Some(p) && p.kind == PassKind::Rendering && p.begin == p.tip
                && old(self).instrs().len() <= p.begin.0 && exists|a: ValueId| #[trigger] opens_pass(
                final(self).instrs(),
                p.begin.0 as int,
                PassKind::Rendering,
                attachments@.push((depth, Access(ACCESS_DEPTH_STENCIL_READ | ACCESS_DEPTH_STENCIL_WRITE))),
                a,
            ) && is_constant(final(self).instrs(), a, Constant::Extent2D(render_area)),
    {
        let all = with_depth(attachments, depth);
        let area = self.lower_constant(Constant::Extent2D(render_area));
        let b = self.begin_pass(PassKind::Rendering, all.as_slice(), area);
        proof {
            assert(opens_pass(self.instrs(), b.0 as int, PassKind::Rendering, all@, area));
        }
    }

    /// Opens a compute pass over the resources its dispatches reach, each with the access
    /// it is reached at. An earlier pass still open is closed first.
    pub fn begin_compute(&mut self, attachments: &[(ValueId, Access)])
        requires
            old(self).wf(),
            old(self).room(),
            old(self).instrs().len() + attachments@.len() + 66 <= INVALID_ID,
        ensures
            final(self).wf(),
            final(self).extends(old(self)),
            final(self).instrs().len() <= old(self).instrs().len() + 1 + attachments@.len(),
            final(self).open_pass() == Some(OngoingPass {
                kind: PassKind::Compute,
                begin: ValueId(old(self).instrs().len() as u32),
                tip: ValueId(old(self).instrs().len() as u32),
            }),
            opens_pass(final(self).instrs(), old(self).instrs().len() as int, PassKind::Compute, attachments@, ValueId(INVALID_ID)),
    {
        self.begin_pass(PassKind::Compute, attachments, ValueId(INVALID_ID));
    }

    /// Names the open pass; with none open the name is dropped.
    pub fn with_name(&mut self, name: &str)
        requires
            old(self).wf(),
            old(self).room(),
        ensures
            final(self).wf(),
            final(self).open_pass() == old(self).open_pass(),
            old(self).open_pass() is None ==> final(self).instrs() == old(self).instrs(),
            old(self).open_pass() matches Some(p) ==> names(
                final(self).instrs(),
                name_field(final(self).instrs()[p.begin.0 as int]),
                name@,
            ),
    {
        match self.ongoing_pass {
            Some(open) => {
                proof {
                    assert(can_be_named(self.instructions@[open.begin.0 as int]) || !can_be_named(self.instructions@[open.begin.0 as int]));
                }
                self.set_name(open.begin, name);
            },
            None => {},
        }
    }
}

/// A count a draw or dispatch takes: one known when it is recorded, or a value holding one
/// when the module runs.
pub trait Count: Sized {
    /// `id` is the value that stands for this count among `instrs`.
    spec fn lowered_to(&self, instrs: Seq<IR>, id: ValueId) -> bool;

    /// Recording more leaves a count standing for what it stood for.
    proof fn lemma_lowered_stays(&self, before: Seq<IR>, after: Seq<IR>, id: ValueId)
        requires
            self.lowered_to(before, id),
            before.len() <= after.len(),
            forall|i: int| 0 <= i < before.len() ==> #[trigger] after[i] == before[i],
        ensures
            self.lowered_to(after, id),
    ;

    fn lower(self, module: &mut Module) -> (r: ValueId)
        requires
            old(module).wf(),
            old(module).instrs().len() + 1 < INVALID_ID,
        ensures
            final(module).wf(),
            final(module).extends(old(module)),
            final(module).same_frame(old(module)),
            final(module).instrs().len() <= old(module).instrs().len() + 1,
            only_constants(old(module).instrs(), final(module).instrs(), final(module).instrs().len() as int),
            self.lowered_to(final(module).instrs(), r),
    ;
}

impl Count for u32 {
    open spec fn lowered_to(&self, instrs: Seq<IR>, id: ValueId) -> bool {
        is_constant(instrs, id, Constant::U32(*self))
    }

    proof fn lemma_lowered_stays(&self, before: Seq<IR>, after: Seq<IR>, id: ValueId) {
        assert(after[id.0 as int] == before[id.0 as int]);
    }

    fn lower(self, module: &mut Module) -> (r: ValueId) {
        module.lower_u32(self)
    }
}

impl Count for ValueId {
    open spec fn lowered_to(&self, instrs: Seq<IR>, id: ValueId) -> bool {
        id == *self
    }

    proof fn lemma_lowered_stays(&self, before: Seq<IR>, after: Seq<IR>, id: ValueId) {
    }

    fn lower(self, module: &mut Module) -> (r: ValueId) {
        self
    }
}

/// The instruction that closes a pass of `kind` whose last instruction is `tip`.
pub open spec fn end_of(kind: PassKind, tip: ValueId) -> IR {
    match kind {
        PassKind::Rendering => IR::EndRendering { pass: tip },
        PassKind::Compute => IR::EndCompute { pass: tip },
    }
}

impl Module {
    /// Draws with the pipeline and state in force in the open rendering pass.
    pub fn draw_range<A: Count, B: Count, C: Count, D: Count>(
        &mut self,
        vertex_count: A,
        instance_count: B,
        first_vertex: C,
        first_instance: D,
    )
        requires
            old(self).wf(),
            old(self).room(),
        ensures
            final(self).wf(),
            final(self).extends(old(self)),
            chained_by(
                old(self),
                final(self),
                Some(PassKind::Rendering),
                |tip: ValueId, ir: IR|
                    ir matches IR::Draw { pass, vertex_count: v, instance_count: n, first_vertex: f, first_instance: i, pipeline, .. }
                        && pass == tip && pipeline == PipelineId(INVALID_ID) && vertex_count.lowered_to(final(self).instrs(), v)
                        && instance_count.lowered_to(final(self).instrs(), n) && first_vertex.lowered_to(final(self).instrs(), f)
                        && first_instance.lowered_to(final(self).instrs(), i),
            ),
    {
        let v = vertex_count.lower(self);
        let ghost at_v = self.instrs();
        let n = instance_count.lower(self);
        let ghost at_n = self.instrs();
        let f = first_vertex.lower(self);
        let ghost at_f = self.instrs();
        let i = first_instance.lower(self);
        let ghost at_i = self.instrs();
        if let Some(tip) = self.chainable(Some(PassKind::Rendering)) {
            let ir = IR::Draw {
                pass: tip,
                vertex_count: v,
                instance_count: n,
                first_vertex: f,
                first_instance: i,
                pipeline: PipelineId::invalid(),
                state: PipelineState::initial(),
                dynamic: DynamicValues::empty(),
            };
            self.chain_emit(ir);
        }
        proof {
            vertex_count.lemma_lowered_stays(at_v, self.instrs(), v);
            instance_count.lemma_lowered_stays(at_n, self.instrs(), n);
            first_vertex.lemma_lowered_stays(at_f, self.instrs(), f);
            first_instance.lemma_lowered_stays(at_i, self.instrs(), i);
        }
    }
}

impl Module {
    /// Draws `vertex_count` vertices of `instance_count` instances, from the first of each.
    pub fn draw<A: Count, B: Count>(&mut self, vertex_count: A, instance_count: B)
        requires
            old(self).wf(),
            old(self).room(),
        ensures
            final(self).wf(),
            final(self).extends(old(self)),
            chained_by(
                old(self),
                final(self),
                Some(PassKind::Rendering),
                |tip: ValueId, ir: IR|
                    ir matches IR::Draw { pass, vertex_count: v, instance_count: n, first_vertex: f, first_instance: i, pipeline, .. }
                        && pass == tip && pipeline == PipelineId(INVALID_ID) && vertex_count.lowered_to(final(self).instrs(), v)
                        && instance_count.lowered_to(final(self).instrs(), n) && is_constant(final(self).instrs(), f, Constant::U32(0))
                        && is_constant(final(self).instrs(), i, Constant::U32(0)),
            ),
    {
        self.draw_range(vertex_count, instance_count, 0u32, 0u32)
    }

    /// Draws indexed with the pipeline and state in force in the open rendering pass.
    pub fn draw_indexed_range<A: Count, B: Count, C: Count, D: Count>(
        &mut self,
        index_count: A,
        instance_count: B,
        first_index: C,
        vertex_offset: i32,
        first_instance: D,
    )
        requires
            old(self).wf(),
            old(self).room(),
        ensures
            final(self).wf(),
            final(self).extends(old(self)),
            chained_by(
                old(self),
                final(self),
                Some(PassKind::Rendering),
                |tip: ValueId, ir: IR|
                    ir matches IR::DrawIndexed { pass, index_count: c, instance_count: n, first_index: f, vertex_offset: o, first_instance: i, pipeline, .. }
                        && pass == tip && pipeline == PipelineId(INVALID_ID) && index_count.lowered_to(final(self).instrs(), c)
                        && instance_count.lowered_to(final(self).instrs(), n) && first_index.lowered_to(final(self).instrs(), f)
                        && is_constant(final(self).instrs(), o, Constant::I32(vertex_offset))
                        && first_instance.lowered_to(final(self).instrs(), i),
            ),
    {
        let c = index_count.lower(self);
        let ghost at_c = self.instrs();
        let n = instance_count.lower(self);
        let ghost at_n = self.instrs();
        let f = first_index.lower(self);
        let ghost at_f = self.instrs();
        let o = self.lower_i32(vertex_offset);
        let i = first_instance.lower(self);
        let ghost at_i = self.instrs();
        if let Some(tip) = self.chainable(Some(PassKind::Rendering)) {
            let ir = IR::DrawIndexed {
                pass: tip,
                index_count: c,
                instance_count: n,
                first_index: f,
                vertex_offset: o,
                first_instance: i,
                pipeline: PipelineId::invalid(),
                state: PipelineState::initial(),
                dynamic: DynamicValues::empty(),
            };
            self.chain_emit(ir);
        }
        proof {
            index_count.lemma_lowered_stays(at_c, self.instrs(), c);
            instance_count.lemma_lowered_stays(at_n, self.instrs(), n);
            first_index.lemma_lowered_stays(at_f, self.instrs(), f);
            first_instance.lemma_lowered_stays(at_i, self.instrs(), i);
        }
    }

    /// Draws `index_count` indices of `instance_count` instances, from the first of each.
    pub fn draw_indexed<A: Count, B: Count>(&mut self, index_count: A, instance_count: B)
        requires
            old(self).wf(),
            old(self).room(),
        ensures
            final(self).wf(),
            final(self).extends(old(self)),
            chained_by(
                old(self),
                final(self),
                Some(PassKind::Rendering),
                |tip: ValueId, ir: IR|
                    ir matches IR::DrawIndexed { pass, index_count: c, instance_count: n, first_index: f, vertex_offset: o, first_instance: i, pipeline, .. }
                        && pass == tip && pipeline == PipelineId(INVALID_ID) && index_count.lowered_to(final(self).instrs(), c)
                        && instance_count.lowered_to(final(self).instrs(), n) && is_constant(final(self).instrs(), f, Constant::U32(0))
                        && is_constant(final(self).instrs(), o, Constant::I32(0))
                        && is_constant(final(self).instrs(), i, Constant::U32(0)),
            ),
    {
        self.draw_indexed_range(index_count, instance_count, 0u32, 0i32, 0u32)
    }

    /// Hands the open rendering pass to the callback that `body`, a callback variable, holds
    /// when the module runs, with the pipeline and state in force.
    pub fn record_from(&mut self, body: ValueId)
        requires
            old(self).wf(),
            old(self).room(),
        ensures
            final(self).wf(),
            final(self).extends(old(self)),
            chained_by(
                old(self),
                final(self),
                Some(PassKind::Rendering),
                |tip: ValueId, ir: IR| ir matches IR::CallOpaque { pass, body: b, pipeline, .. } && pass == tip && b == body
                    && pipeline == PipelineId(INVALID_ID),
            ),
    {
        if let Some(tip) = self.chainable(Some(PassKind::Rendering)) {
            let ir = IR::CallOpaque {
                pass: tip,
                body,
                pipeline: PipelineId::invalid(),
                state: PipelineState::initial(),
                dynamic: DynamicValues::empty(),
            };
            self.chain_emit(ir);
        }
    }

    /// Closes the open pass if it is of `kind`, and gives the id of what closed it. Where no
    /// pass of that kind is open nothing is recorded, and the id given is the open pass's last
    /// instruction, or 0 where none is open.
    fn end_pass(&mut self, kind: PassKind) -> (r: ValueId)
        requires
            old(self).wf(),
            old(self).room(),
        ensures
            final(self).wf(),
            final(self).extends(old(self)),
            final(self).same_blocks(old(self)),
            match old(self).open_pass() {
                Some(p) => if p.kind == kind {
                    &&& final(self).instrs() == old(self).instrs().push(end_of(kind, p.tip))
                    &&& r.0 == old(self).instrs().len()
                    &&& final(self).open_pass() is None
                } else {
                    &&& final(self).instrs() == old(self).instrs()
                    &&& r == p.tip
                    &&& final(self).open_pass() == old(self).open_pass()
                },
                None => final(self).instrs() == old(self).instrs() && r == ValueId(0) && final(self).open_pass() is None,
            },
    {
        match self.ongoing_pass {
            Some(open) => {
                if open.kind == kind {
                    self.ongoing_pass = None;
                    let ir = match kind {
                        PassKind::Rendering => IR::EndRendering { pass: open.tip },
                        PassKind::Compute => IR::EndCompute { pass: open.tip },
                    };
                    self.emit(ir)
                } else {
                    open.tip
                }
            },
            None => ValueId(0),
        }
    }

    /// Closes the open rendering pass; the id given is what later recording that depends on
    /// the pass's results takes.
    pub fn end_rendering(&mut self) -> (r: ValueId)
        requires
            old(self).wf(),
            old(self).room(),
        ensures
            final(self).wf(),
            final(self).extends(old(self)),
            final(self).same_blocks(old(self)),
            match old(self).open_pass() {
                Some(p) => if p.kind == PassKind::Rendering {
                    &&& final(self).instrs() == old(self).instrs().push(IR::EndRendering { pass: p.tip })
                    &&& r.0 == old(self).instrs().len()
                    &&& final(self).open_pass() is None
                } else {
                    &&& final(self).instrs() == old(self).instrs()
                    &&& r == p.tip
                    &&& final(self).open_pass() == old(self).open_pass()
                },
                None => final(self).instrs() == old(self).instrs() && r == ValueId(0) && final(self).open_pass() is None,
            },
    {
        self.end_pass(PassKind::Rendering)
    }

    /// Closes the open compute pass, as [`Self::end_rendering`] closes a rendering one.
    pub fn end_compute(&mut self) -> (r: ValueId)
        requires
            old(self).wf(),
            old(self).room(),
        ensures
            final(self).wf(),
            final(self).extends(old(self)),
            final(self).same_blocks(old(self)),
            match old(self).open_pass() {
                Some(p) => if p.kind == PassKind::Compute {
                    &&& final(self).instrs() == old(self).instrs().push(IR::EndCompute { pass: p.tip })
                    &&& r.0 == old(self).instrs().len()
                    &&& final(self).open_pass() is None
                } else {
                    &&& final(self).instrs() == old(self).instrs()
                    &&& r == p.tip
                    &&& final(self).open_pass() == old(self).open_pass()
                },
                None => final(self).instrs() == old(self).instrs() && r == ValueId(0) && final(self).open_pass() is None,
            },
    {
        self.end_pass(PassKind::Compute)
    }
}

/// The invocations a count of `count` things comes to, one each, held to what a `u32` holds.
pub open spec fn invocations(count: u64) -> u32 {
    if count > u32::MAX { u32::MAX } else { count as u32 }
}

impl PassKind {
    /// The kind's name, as messages about it spell it.
    pub fn name(self) -> (r: &'static str)
        ensures
            self == PassKind::Rendering ==> r@ == "rendering"@,
            self == PassKind::Compute ==> r@ == "compute"@,
    {
        match self {
            PassKind::Rendering => "rendering",
            PassKind::Compute => "compute",
        }
    }
}

impl Module {
    /// [`Self::access`] for the compute accesses, which only a compute pass reaches anything
    /// by: in an open rendering pass the declaration is dropped.
    fn compute_access(&mut self, resource: ValueId, access: Access)
        requires
            old(self).wf(),
            old(self).room(),
        ensures
            final(self).wf(),
            (old(self).open_pass() matches Some(p) && p.kind == PassKind::Rendering) ==> *final(self) == *old(self),
            !(old(self).open_pass() matches Some(p) && p.kind == PassKind::Rendering) ==> declares(
                old(self),
                final(self),
                resource,
                access.0,
            ),
    {
        if let Some(open) = self.ongoing_pass {
            if open.kind == PassKind::Rendering {
                return;
            }
        }
        self.access(resource, access)
    }

    /// Declares that the open compute pass reads `resource` as storage.
    pub fn read(&mut self, resource: ValueId)
        requires
            old(self).wf(),
            old(self).room(),
        ensures
            final(self).wf(),
            (old(self).open_pass() matches Some(p) && p.kind == PassKind::Rendering) ==> *final(self) == *old(self),
            !(old(self).open_pass() matches Some(p) && p.kind == PassKind::Rendering) ==> declares(
                old(self),
                final(self),
                resource,
                ACCESS_COMPUTE_READ,
            ),
    {
        self.compute_access(resource, Access(ACCESS_COMPUTE_READ))
    }

    /// Declares that the open compute pass writes `resource` as storage.
    pub fn write(&mut self, resource: ValueId)
        requires
            old(self).wf(),
            old(self).room(),
        ensures
            final(self).wf(),
            (old(self).open_pass() matches Some(p) && p.kind == PassKind::Rendering) ==> *final(self) == *old(self),
            !(old(self).open_pass() matches Some(p) && p.kind == PassKind::Rendering) ==> declares(
                old(self),
                final(self),
                resource,
                ACCESS_COMPUTE_WRITE,
            ),
    {
        self.compute_access(resource, Access(ACCESS_COMPUTE_WRITE))
    }

    /// Declares that the open compute pass reads and writes `resource` as storage.
    pub fn read_write(&mut self, resource: ValueId)
        requires
            old(self).wf(),
            old(self).room(),
        ensures
            final(self).wf(),
            (old(self).open_pass() matches Some(p) && p.kind == PassKind::Rendering) ==> *final(self) == *old(self),
            !(old(self).open_pass() matches Some(p) && p.kind == PassKind::Rendering) ==> declares(
                old(self),
                final(self),
                resource,
                ACCESS_COMPUTE_READ | ACCESS_COMPUTE_WRITE,
            ),
    {
        self.compute_access(resource, Access(ACCESS_COMPUTE_READ | ACCESS_COMPUTE_WRITE))
    }

    /// Declares that the open compute pass samples `image`.
    pub fn sample_image(&mut self, image: ValueId)
        requires
            old(self).wf(),
            old(self).room(),
        ensures
            final(self).wf(),
            (old(self).open_pass() matches Some(p) && p.kind == PassKind::Rendering) ==> *final(self) == *old(self),
            !(old(self).open_pass() matches Some(p) && p.kind == PassKind::Rendering) ==> declares(
                old(self),
                final(self),
                image,
                ACCESS_COMPUTE_SAMPLED,
            ),
    {
        self.compute_access(image, Access(ACCESS_COMPUTE_SAMPLED))
    }

    /// Declares that the open compute pass reads `buffer` as a uniform buffer.
    pub fn read_uniform(&mut self, buffer: ValueId)
        requires
            old(self).wf(),
            old(self).room(),
        ensures
            final(self).wf(),
            (old(self).open_pass() matches Some(p) && p.kind == PassKind::Rendering) ==> *final(self) == *old(self),
            !(old(self).open_pass() matches Some(p) && p.kind == PassKind::Rendering) ==> declares(
                old(self),
                final(self),
                buffer,
                ACCESS_COMPUTE_UNIFORM_READ,
            ),
    {
        self.compute_access(buffer, Access(ACCESS_COMPUTE_UNIFORM_READ))
    }

    /// Writes one descriptor into the open pass. Every write still standing when a draw or
    /// dispatch is reached is what that command's descriptor sets are built from, so rebinding
    /// the same set and binding only affects the commands after it. Only an image can be
    /// written; a write of anything else is dropped. The write's access starts out as none and
    /// is what the pipelines that consume it later make of it.
    fn write_descriptor(&mut self, set: u32, binding: u32, descriptor: Descriptor)
        requires
            old(self).wf(),
            old(self).room(),
        ensures
            final(self).wf(),
            final(self).extends(old(self)),
            !is_image_spec(old(self).instrs(), descriptor.spec_image()) ==> *final(self) == *old(self),
            is_image_spec(old(self).instrs(), descriptor.spec_image()) ==> chained_by(
                old(self),
                final(self),
                None,
                |tip: ValueId, ir: IR| ir matches IR::WriteDescriptor { pass, set: s, binding: b, descriptor: d, access: a }
                    && pass == tip && s == set && b == binding && d == descriptor && is_constant(
                    final(self).instrs(),
                    a,
                    Constant::Access(Access(0)),
                ),
            ),
    {
        if !is_image(&self.instructions, descriptor.image()) {
            return;
        }
        let access = self.lower_access(Access(0));
        if let Some(tip) = self.chainable(None) {
            self.chain_emit(IR::WriteDescriptor { pass: tip, set, binding, descriptor, access });
        }
    }

    /// Binds `image` for the shaders of the open pass to read at `set` and `binding`: sampled,
    /// as storage or as an input attachment, whichever the pipeline declares there.
    pub fn bind_image(&mut self, set: u32, binding: u32, image: ValueId)
        requires
            old(self).wf(),
            old(self).room(),
        ensures
            final(self).wf(),
            final(self).extends(old(self)),
            !is_image_spec(old(self).instrs(), image) ==> *final(self) == *old(self),
            is_image_spec(old(self).instrs(), image) ==> chained_by(
                old(self),
                final(self),
                None,
                |tip: ValueId, ir: IR| ir matches IR::WriteDescriptor { pass, set: s, binding: b, descriptor: d, access: a }
                    && pass == tip && s == set && b == binding && d == Descriptor::SampledImage { image } && is_constant(
                    final(self).instrs(),
                    a,
                    Constant::Access(Access(0)),
                ),
            ),
    {
        self.write_descriptor(set, binding, Descriptor::SampledImage { image })
    }

    /// Binds `image` with `sampler` as a combined image and sampler at `set` and `binding`.
    pub fn bind_texture(&mut self, set: u32, binding: u32, image: ValueId, sampler: u64)
        requires
            old(self).wf(),
            old(self).room(),
        ensures
            final(self).wf(),
            final(self).extends(old(self)),
            !is_image_spec(old(self).instrs(), image) ==> *final(self) == *old(self),
            is_image_spec(old(self).instrs(), image) ==> chained_by(
                old(self),
                final(self),
                None,
                |tip: ValueId, ir: IR| ir matches IR::WriteDescriptor { pass, set: s, binding: b, descriptor: d, access: a }
                    && pass == tip && s == set && b == binding && d == Descriptor::CombinedImageSampler { image, sampler }
                    && is_constant(final(self).instrs(), a, Constant::Access(Access(0))),
            ),
    {
        self.write_descriptor(set, binding, Descriptor::CombinedImageSampler { image, sampler })
    }

    /// Binds `buffers` as the vertex buffers from `first_binding` on, each at its offset.
    pub fn bind_vertex_buffers(&mut self, first_binding: u32, buffers: &[ValueId], offsets: &[u64])
        requires
            old(self).wf(),
            old(self).room(),
            buffers@.len() == offsets@.len(),
        ensures
            final(self).wf(),
            final(self).extends(old(self)),
            chained_by(
                old(self),
                final(self),
                Some(PassKind::Rendering),
                |tip: ValueId, ir: IR| ir matches IR::BindVertexBuffers { pass, first_binding: f, buffers: b, offsets: o }
                    && pass == tip && f == first_binding && b@ == buffers@ && o@ == offsets@,
            ),
    {
        if let Some(tip) = self.chainable(Some(PassKind::Rendering)) {
            let buffers = copy_id_slice(buffers);
            let offsets = copy_offsets(offsets);
            self.chain_emit(IR::BindVertexBuffers { pass: tip, first_binding, buffers, offsets });
        }
    }

    /// Binds `buffer` as the vertex buffer at `binding`, from its start.
    pub fn bind_vertex_buffer(&mut self, binding: u32, buffer: ValueId)
        requires
            old(self).wf(),
            old(self).room(),
        ensures
            final(self).wf(),
            final(self).extends(old(self)),
            chained_by(
                old(self),
                final(self),
                Some(PassKind::Rendering),
                |tip: ValueId, ir: IR| ir matches IR::BindVertexBuffers { pass, first_binding: f, buffers: b, offsets: o }
                    && pass == tip && f == binding && b@ == seq![buffer] && o@ == seq![0u64],
            ),
    {
        let buffers = [buffer];
        let offsets = [0u64];
        proof {
            assert(buffers@ =~= seq![buffer]);
            assert(offsets@ =~= seq![0u64]);
        }
        self.bind_vertex_buffers(binding, &buffers, &offsets)
    }

    /// Binds `buffer` as the index buffer from byte `offset` on, its indices of `index_type`.
    pub fn bind_index_buffer_at(&mut self, buffer: ValueId, offset: u64, index_type: i32)
        requires
            old(self).wf(),
            old(self).room(),
        ensures
            final(self).wf(),
            final(self).extends(old(self)),
            chained(
                old(self),
                final(self),
                Some(PassKind::Rendering),
                |tip: ValueId| IR::BindIndexBuffer { pass: tip, buffer, offset, index_type },
            ),
    {
        if let Some(tip) = self.chainable(Some(PassKind::Rendering)) {
            self.chain_emit(IR::BindIndexBuffer { pass: tip, buffer, offset, index_type });
        }
    }

    /// Binds `buffer` as the index buffer from its start.
    pub fn bind_index_buffer(&mut self, buffer: ValueId, index_type: i32)
        requires
            old(self).wf(),
            old(self).room(),
        ensures
            final(self).wf(),
            final(self).extends(old(self)),
            chained(
                old(self),
                final(self),
                Some(PassKind::Rendering),
                |tip: ValueId| IR::BindIndexBuffer { pass: tip, buffer, offset: 0, index_type },
            ),
    {
        self.bind_index_buffer_at(buffer, 0, index_type)
    }

    /// Dispatches the open compute pass's pipeline over `size`.
    pub fn dispatch_size(&mut self, size: DispatchSize)
        requires
            old(self).wf(),
            old(self).instrs().len() + 8 <= INVALID_ID,
        ensures
            final(self).wf(),
            final(self).extends(old(self)),
            chained_by(
                old(self),
                final(self),
                Some(PassKind::Compute),
                |tip: ValueId, ir: IR| ir matches IR::Dispatch { pass, size: z, pipeline, push_constants }
                    && pass == tip && z == size && pipeline == PipelineId(INVALID_ID) && push_constants.data@.len() == 0,
            ),
    {
        if let Some(tip) = self.chainable(Some(PassKind::Compute)) {
            let push_constants = PushConstants { offset: 0, data: Vec::new() };
            self.chain_emit(IR::Dispatch { pass: tip, size, pipeline: PipelineId::invalid(), push_constants });
        }
    }

    /// Dispatches these group counts. Each axis is a count known now or a value holding one
    /// when the module runs, in any mix.
    pub fn dispatch<A: Count, B: Count, C: Count>(&mut self, groups_x: A, groups_y: B, groups_z: C)
        requires
            old(self).wf(),
            old(self).room(),
        ensures
            final(self).wf(),
            final(self).extends(old(self)),
            chained_by(
                old(self),
                final(self),
                Some(PassKind::Compute),
                |tip: ValueId, ir: IR| ir matches IR::Dispatch { pass, size: DispatchSize::Groups { x, y, z }, pipeline, .. }
                    && pass == tip && pipeline == PipelineId(INVALID_ID) && groups_x.lowered_to(final(self).instrs(), x)
                    && groups_y.lowered_to(final(self).instrs(), y) && groups_z.lowered_to(final(self).instrs(), z),
            ),
    {
        let x = groups_x.lower(self);
        let ghost at_x = self.instrs();
        let y = groups_y.lower(self);
        let ghost at_y = self.instrs();
        let z = groups_z.lower(self);
        let ghost at_z = self.instrs();
        self.dispatch_size(DispatchSize::Groups { x, y, z });
        proof {
            groups_x.lemma_lowered_stays(at_x, self.instrs(), x);
            groups_y.lemma_lowered_stays(at_y, self.instrs(), y);
            groups_z.lemma_lowered_stays(at_z, self.instrs(), z);
        }
    }

    /// Dispatches at least this many invocations per axis, rounded up to whole workgroups of
    /// whatever the bound pipeline declares. An axis given as a value is counted and rounded
    /// up when the module runs rather than now.
    pub fn dispatch_invocations<A: Count, B: Count, C: Count>(&mut self, invocations_x: A, invocations_y: B, invocations_z: C)
        requires
            old(self).wf(),
            old(self).room(),
        ensures
            final(self).wf(),
            final(self).extends(old(self)),
            chained_by(
                old(self),
                final(self),
                Some(PassKind::Compute),
                |tip: ValueId, ir: IR| ir matches IR::Dispatch { pass, size: DispatchSize::Invocations { x, y, z }, pipeline, .. }
                    && pass == tip && pipeline == PipelineId(INVALID_ID) && invocations_x.lowered_to(final(self).instrs(), x)
                    && invocations_y.lowered_to(final(self).instrs(), y) && invocations_z.lowered_to(final(self).instrs(), z),
            ),
    {
        let x = invocations_x.lower(self);
        let ghost at_x = self.instrs();
        let y = invocations_y.lower(self);
        let ghost at_y = self.instrs();
        let z = invocations_z.lower(self);
        let ghost at_z = self.instrs();
        self.dispatch_size(DispatchSize::Invocations { x, y, z });
        proof {
            invocations_x.lemma_lowered_stays(at_x, self.instrs(), x);
            invocations_y.lemma_lowered_stays(at_y, self.instrs(), y);
            invocations_z.lemma_lowered_stays(at_z, self.instrs(), z);
        }
    }

    /// Dispatches one invocation per pixel of `image`, width along x, height along y and
    /// depth along z. An image whose extent is only known when the module runs is counted
    /// then; a value that is no image at all gets no dispatch.
    pub fn dispatch_invocations_per_pixel(&mut self, image: ValueId)
        requires
            old(self).wf(),
            old(self).room(),
        ensures
            final(self).wf(),
            final(self).extends(old(self)),
            match image_type_spec(old(self).instrs(), image) {
                Some(t) => match t.extent {
                    Some(e) => chained_by(
                        old(self),
                        final(self),
                        Some(PassKind::Compute),
                        |tip: ValueId, ir: IR| ir matches IR::Dispatch { pass, size: DispatchSize::Invocations { x, y, z }, .. }
                            && pass == tip && is_constant(final(self).instrs(), x, Constant::U32(e.width))
                            && is_constant(final(self).instrs(), y, Constant::U32(e.height))
                            && is_constant(final(self).instrs(), z, Constant::U32(e.depth)),
                    ),
                    None => chained_by(
                        old(self),
                        final(self),
                        Some(PassKind::Compute),
                        |tip: ValueId, ir: IR| ir matches IR::Dispatch { pass, size, .. } && pass == tip
                            && size == DispatchSize::InvocationsPerPixel { image, scale_x: ONE_F32_BITS, scale_y: ONE_F32_BITS, scale_z: ONE_F32_BITS },
                    ),
                },
                None => *final(self) == *old(self),
            },
    {
        match resolve_image(&self.instructions, image) {
            Some(t) => match t.extent {
                Some(e) => self.dispatch_invocations(e.width, e.height, e.depth),
                None => self.dispatch_size(
                    DispatchSize::InvocationsPerPixel { image, scale_x: ONE_F32_BITS, scale_y: ONE_F32_BITS, scale_z: ONE_F32_BITS },
                ),
            },
            None => {},
        }
    }

    /// Dispatches one invocation per `element_size` bytes of `buffer`, along the x-axis only.
    /// A buffer whose size is only known when the module runs is counted then; elements of no
    /// size, or a value that is no buffer, get no dispatch.
    pub fn dispatch_invocations_per_element(&mut self, buffer: ValueId, element_size: u64)
        requires
            old(self).wf(),
            old(self).room(),
        ensures
            final(self).wf(),
            final(self).extends(old(self)),
            element_size == 0 ==> *final(self) == *old(self),
            element_size != 0 ==> match buffer_size_spec(old(self).instrs(), buffer) {
                Some(size) => chained_by(
                    old(self),
                    final(self),
                    Some(PassKind::Compute),
                    |tip: ValueId, ir: IR| ir matches IR::Dispatch { pass, size: DispatchSize::Invocations { x, y, z }, .. }
                        && pass == tip && is_constant(final(self).instrs(), x, Constant::U32(invocations(size / element_size)))
                        && is_constant(final(self).instrs(), y, Constant::U32(1))
                        && is_constant(final(self).instrs(), z, Constant::U32(1)),
                ),
                None => if is_buffer_spec(old(self).instrs(), buffer) {
                    chained_by(
                        old(self),
                        final(self),
                        Some(PassKind::Compute),
                        |tip: ValueId, ir: IR| ir matches IR::Dispatch { pass, size, .. } && pass == tip
                            && size == DispatchSize::InvocationsPerElement { buffer, element_size, scale: ONE_F32_BITS },
                    )
                } else {
                    *final(self) == *old(self)
                },
            },
    {
        if element_size == 0 {
            return;
        }
        match resolve_buffer_size(&self.instructions, buffer) {
            Some(size) => {
                let count = size / element_size;
                let x: u32 = if count > u32::MAX as u64 { u32::MAX } else { count as u32 };
                self.dispatch_invocations(x, 1u32, 1u32)
            },
            None => {
                if is_buffer(&self.instructions, buffer) {
                    self.dispatch_size(DispatchSize::InvocationsPerElement { buffer, element_size, scale: ONE_F32_BITS })
                }
            },
        }
    }

    /// Dispatches the group counts the device reads out of `buffer` at byte `offset`.
    pub fn dispatch_indirect_at(&mut self, buffer: ValueId, offset: u64)
        requires
            old(self).wf(),
            old(self).room(),
        ensures
            final(self).wf(),
            final(self).extends(old(self)),
            chained_by(
                old(self),
                final(self),
                Some(PassKind::Compute),
                |tip: ValueId, ir: IR| ir matches IR::Dispatch { pass, size, pipeline, .. } && pass == tip
                    && size == DispatchSize::Indirect { buffer, offset } && pipeline == PipelineId(INVALID_ID),
            ),
    {
        self.dispatch_size(DispatchSize::Indirect { buffer, offset })
    }

    /// Dispatches the group counts the device reads out of the start of `buffer`.
    pub fn dispatch_indirect(&mut self, buffer: ValueId)
        requires
            old(self).wf(),
            old(self).room(),
        ensures
            final(self).wf(),
            final(self).extends(old(self)),
            chained_by(
                old(self),
                final(self),
                Some(PassKind::Compute),
                |tip: ValueId, ir: IR| ir matches IR::Dispatch { pass, size, pipeline, .. } && pass == tip
                    && size == DispatchSize::Indirect { buffer, offset: 0 } && pipeline == PipelineId(INVALID_ID),
            ),
    {
        self.dispatch_indirect_at(buffer, 0)
    }
}

fn copy_id_slice(v: &[ValueId]) -> (r: Vec<ValueId>)
    ensures
        r@ == v@,
{
    let mut r: Vec<ValueId> = Vec::with_capacity(v.len());
    let mut i: usize = 0;
    while i < v.len()
        invariant
            i <= v@.len(),
            r@ == v@.subrange(0, i as int),
        decreases v@.len() - i,
    {
        r.push(v[i]);
        i = i + 1;
    }
    r
}

fn copy_offsets(v: &[u64]) -> (r: Vec<u64>)
    ensures
        r@ == v@,
{
    let mut r: Vec<u64> = Vec::with_capacity(v.len());
    let mut i: usize = 0;
    while i < v.len()
        invariant
            i <= v@.len(),
            r@ == v@.subrange(0, i as int),
        decreases v@.len() - i,
    {
        r.push(v[i]);
        i = i + 1;
    }
    r
}

/// The blocks after the last one is ended by `terminator`, where it was not ended already.
pub open spec fn ended(blocks: Seq<Block>, terminator: Terminator) -> Seq<Block> {
    if blocks.last().terminator == Terminator::Return {
        blocks.update(blocks.len() - 1, Block { label: blocks.last().label, terminator })
    } else {
        blocks
    }
}

impl Module {
    /// Opens a selection on `condition`: the blocks recorded next are the arm taken when it
    /// holds, until [`Self::otherwise`] starts the other arm. A pass still open is closed.
    pub fn set_condition(&mut self, condition: ValueId) -> (r: Selection)
        requires
            old(self).wf(),
            old(self).room(),
        ensures
            final(self).wf(),
            final(self).extends(old(self)),
            final(self).instrs() == old(self).instrs(),
            final(self).open_pass() is None,
            r.merge == LabelId(old(self).label_total()),
            r.true_label == LabelId((old(self).label_total() + 1) as u32),
            r.false_label == LabelId((old(self).label_total() + 2) as u32),
            r.taken == condition,
            final(self).label_total() == old(self).label_total() + 3,
            final(self).block_list() == ended(
                old(self).block_list(),
                Terminator::BranchConditional {
                    condition,
                    merge: r.merge,
                    true_label: r.true_label,
                    false_label: r.false_label,
                },
            ).push(Block { label: r.true_label, terminator: Terminator::Return }),
            final(self).current() == Some(r.true_label),
    {
        self.ongoing_pass = None;
        let merge = self.declare_label();
        let true_label = self.declare_label();
        let false_label = self.declare_label();
        self.terminate(Terminator::BranchConditional { condition, merge, true_label, false_label });
        proof {
            assert forall|i: int| 0 <= i < self.blocks@.len() implies #[trigger] self.blocks@[i].label != true_label by {
                assert(self.blocks@[i].label.0 < old(self).label_count);
            }
        }
        self.place_label(true_label);
        Selection { merge, true_label, false_label, taken: condition }
    }

    /// Ends the arm a selection takes when its condition holds, with `taken` the value that
    /// arm came to, and starts the other arm. A pass still open is closed.
    pub fn otherwise(&mut self, selection: Selection, taken: ValueId) -> (r: Selection)
        requires
            old(self).wf(),
            selection.merge.0 < old(self).label_total(),
            selection.false_label.0 < old(self).label_total(),
        ensures
            final(self).wf(),
            final(self).extends(old(self)),
            final(self).instrs() == old(self).instrs(),
            final(self).open_pass() is None,
            final(self).label_total() == old(self).label_total(),
            r == (Selection { taken, ..selection }),
            !(exists|i: int| 0 <= i < old(self).block_list().len() && #[trigger] old(self).block_list()[i].label
                == selection.false_label) ==> final(self).block_list() == ended(
                old(self).block_list(),
                Terminator::Branch { target: selection.merge },
            ).push(Block { label: selection.false_label, terminator: Terminator::Return })
                && final(self).current() == Some(selection.false_label),
    {
        self.ongoing_pass = None;
        self.terminate(Terminator::Branch { target: selection.merge });
        self.place_label(selection.false_label);
        Selection { taken, ..selection }
    }

    /// Ends a selection's second arm, with `skipped` the value it came to, and opens the block
    /// both arms join in, where the value the selection comes to is the one of the arm taken.
    pub fn end_condition(&mut self, selection: Selection, skipped: ValueId) -> (r: ValueId)
        requires
            old(self).wf(),
            old(self).room(),
            selection.merge.0 < old(self).label_total(),
        ensures
            final(self).wf(),
            final(self).extends(old(self)),
            final(self).open_pass() is None,
            final(self).label_total() == old(self).label_total(),
            r.0 == old(self).instrs().len(),
            final(self).instrs().len() == old(self).instrs().len() + 1,
            (final(self).instrs()[r.0 as int] matches IR::Phi { incoming } && incoming@ == seq![
                (selection.taken, selection.true_label),
                (skipped, selection.false_label),
            ]),
            !(exists|i: int| 0 <= i < old(self).block_list().len() && #[trigger] old(self).block_list()[i].label
                == selection.merge) ==> final(self).block_list() == ended(
                old(self).block_list(),
                Terminator::Branch { target: selection.merge },
            ).push(Block { label: selection.merge, terminator: Terminator::Return })
                && final(self).current() == Some(selection.merge),
    {
        self.ongoing_pass = None;
        self.terminate(Terminator::Branch { target: selection.merge });
        self.place_label(selection.merge);
        let mut incoming: Vec<(ValueId, LabelId)> = Vec::new();
        incoming.push((selection.taken, selection.true_label));
        incoming.push((skipped, selection.false_label));
        proof {
            assert(incoming@ =~= seq![(selection.taken, selection.true_label), (skipped, selection.false_label)]);
        }
        self.emit(IR::Phi { incoming })
    }
}

} // verus!
