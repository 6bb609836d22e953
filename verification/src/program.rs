use vstd::prelude::*;

use crate::access::Access;
use crate::ids::{LabelId, ValueId};
use crate::ir::{ClearValue, Instr, IR, VariableKind};
use crate::resource::{Buffer, Extent2D, Extent3D, ImageAttachment};

verus! {

/// A swapchain as a frame acquired it: its raw handle, its images and the raw semaphores
/// presenting each of them waits on.
#[derive(Debug, Clone, Default, PartialEq, Eq, Hash)]
pub struct AcquiredSwapchain {
    pub handle: u64,
    pub attachments: Vec<ImageAttachment>,
    pub present_semaphores: Vec<u64>,
}

/// A swapchain: its raw handle and surface, a raw semaphore per image, and its images.
#[derive(Debug, Clone, Default)]
pub struct SwapChain {
    pub handle: u64,
    pub surface: u64,
    pub semaphores: Vec<u64>,
    pub attachments: Vec<ImageAttachment>,
}

impl SwapChain {
    pub open spec fn spec_format(&self) -> i32 {
        if self.attachments@.len() > 0 { self.attachments@[0].format } else { 0 }
    }

    pub open spec fn spec_samples(&self) -> u32 {
        if self.attachments@.len() > 0 { self.attachments@[0].samples } else { 1 }
    }

    /// The format of its images, undefined with none.
    pub fn format(&self) -> (r: i32)
        ensures
            r == self.spec_format(),
    {
        if self.attachments.len() > 0 { self.attachments[0].format } else { 0 }
    }

    /// The sample count of its images, one with none.
    pub fn samples(&self) -> (r: u32)
        ensures
            r == self.spec_samples(),
    {
        if self.attachments.len() > 0 { self.attachments[0].samples } else { 1 }
    }

    /// What a frame that acquired an image of this swapchain holds of it.
    pub fn acquired(&self) -> (r: AcquiredSwapchain)
        ensures
            r.handle == self.handle,
            r.attachments@ == self.attachments@,
            r.present_semaphores@ == self.semaphores@,
    {
        AcquiredSwapchain {
            handle: self.handle,
            attachments: copy_attachments(&self.attachments),
            present_semaphores: copy_handles(&self.semaphores),
        }
    }
}

fn copy_attachments(v: &Vec<ImageAttachment>) -> (r: Vec<ImageAttachment>)
    ensures
        r@ == v@,
{
    let mut r: Vec<ImageAttachment> = Vec::with_capacity(v.len());
    let mut i: usize = 0;
    while i < v.len()
        invariant
            i <= v@.len(),
            r@ == v@.subrange(0, i as int),
        decreases v@.len() - i,
    {
        r.push(v[i]);
        i = i + 1;
    }
    r
}

fn copy_handles(v: &Vec<u64>) -> (r: Vec<u64>)
    ensures
        r@ == v@,
{
    let mut r: Vec<u64> = Vec::with_capacity(v.len());
    let mut i: usize = 0;
    while i < v.len()
        invariant
            i <= v@.len(),
            r@ == v@.subrange(0, i as int),
        decreases v@.len() - i,
    {
        r.push(v[i]);
        i = i + 1;
    }
    r
}

/// A value a variable holds when a program runs. A callback is held by the id the caller
/// registered its body under.
#[derive(Debug, Clone)]
pub enum Value {
    Nothing,
    Bool(bool),
    I32(i32),
    U32(u32),
    Size(u64),
    Extent2D(Extent2D),
    Extent3D(Extent3D),
    ImageAttachment(ImageAttachment),
    Buffer(Buffer),
    Bytes(Vec<u8>),
    Swapchain(AcquiredSwapchain),
    Slice(Vec<ValueId>),
    Reference(ValueId),
    Access(Access),
    ClearValue(ClearValue),
    Callback(u64),
}

pub open spec fn value_kind(value: Value) -> Option<VariableKind> {
    match value {
        Value::Bool(_) => Some(VariableKind::Bool),
        Value::I32(_) => Some(VariableKind::I32),
        Value::U32(_) => Some(VariableKind::U32),
        Value::Extent2D(_) => Some(VariableKind::Extent2D),
        Value::Extent3D(_) => Some(VariableKind::Extent3D),
        Value::ClearValue(_) => Some(VariableKind::ClearValue),
        Value::Bytes(bytes) => Some(VariableKind::Bytes(bytes@.len() as u32)),
        Value::Swapchain(_) => Some(VariableKind::Swapchain),
        Value::Buffer(_) => Some(VariableKind::Buffer),
        Value::ImageAttachment(_) => Some(VariableKind::ImageAttachment),
        Value::Callback(_) => Some(VariableKind::Callback),
        _ => None,
    }
}

impl Value {
    /// The kind of variable that can hold this value; `None` for the values only the graph
    /// itself makes.
    pub fn kind(&self) -> (r: Option<VariableKind>)
        ensures
            r == value_kind(*self),
    {
        match self {
            Value::Bool(_) => Some(VariableKind::Bool),
            Value::I32(_) => Some(VariableKind::I32),
            Value::U32(_) => Some(VariableKind::U32),
            Value::Extent2D(_) => Some(VariableKind::Extent2D),
            Value::Extent3D(_) => Some(VariableKind::Extent3D),
            Value::ClearValue(_) => Some(VariableKind::ClearValue),
            Value::Bytes(bytes) => Some(VariableKind::Bytes(bytes.len() as u32)),
            Value::Swapchain(_) => Some(VariableKind::Swapchain),
            Value::Buffer(_) => Some(VariableKind::Buffer),
            Value::ImageAttachment(_) => Some(VariableKind::ImageAttachment),
            Value::Callback(_) => Some(VariableKind::Callback),
            _ => None,
        }
    }
}

/// A slot of a program the caller fills in between runs. A resource variable stands for the
/// resource constructed at `resource`.
#[derive(Debug, Clone)]
pub struct Variable {
    pub kind: VariableKind,
    pub name: Option<String>,
    pub value: Value,
    pub resource: Option<ValueId>,
}

/// Where `label` opens a block among `instructions`, the first place it does.
pub open spec fn label_position(instructions: Seq<(ValueId, IR)>, label: LabelId) -> Option<int>
    decreases instructions.len(),
{
    if instructions.len() == 0 {
        None
    } else {
        match label_position(instructions.drop_last(), label) {
            Some(i) => Some(i),
            None => if instructions.last().1 == (IR::Label { label }) {
                Some(instructions.len() - 1)
            } else {
                None
            },
        }
    }
}

/// The labels the first `n` instructions open, each with where it stands, in order.
pub open spec fn label_entries(instructions: Seq<(ValueId, IR)>, n: int) -> Seq<(LabelId, usize)>
    decreases n,
{
    if n <= 0 {
        seq![]
    } else {
        label_entries(instructions, n - 1) + match instructions[n - 1].1 {
            IR::Label { label } => seq![(label, (n - 1) as usize)],
            _ => seq![],
        }
    }
}

/// Where the first entry of `entries` for `label` says it stands.
pub open spec fn entry_for(entries: Seq<(LabelId, usize)>, label: LabelId) -> Option<usize>
    decreases entries.len(),
{
    if entries.len() == 0 {
        None
    } else {
        match entry_for(entries.drop_last(), label) {
            Some(at) => Some(at),
            None => if entries.last().0 == label { Some(entries.last().1) } else { None },
        }
    }
}

/// Looking a label up in the entries of the first `n` instructions finds where it first
/// opens a block among them.
proof fn lemma_entry_for(instructions: Seq<(ValueId, IR)>, n: int, label: LabelId)
    requires
        0 <= n <= instructions.len(),
        n < usize::MAX,
    ensures
        entry_for(label_entries(instructions, n), label) == (match label_position(instructions.subrange(0, n), label) {
            Some(i) => Some(i as usize),
            None => None,
        }),
    decreases n,
{
    if n > 0 {
        lemma_entry_for(instructions, n - 1, label);
        let prefix = instructions.subrange(0, n);
        assert(prefix.drop_last() =~= instructions.subrange(0, n - 1));
        let before = label_entries(instructions, n - 1);
        let entries = label_entries(instructions, n);
        match instructions[n - 1].1 {
            IR::Label { label: l } => {
                assert(entries.drop_last() =~= before);
            },
            _ => {
                assert(entries =~= before);
            },
        }
    } else {
        assert(label_entries(instructions, 0).len() == 0);
    }
}

/// The slot `slots` gives the variable `id`, the first entry for it.
pub open spec fn slot_spec(slots: Seq<(ValueId, u32)>, id: ValueId) -> Option<u32>
    decreases slots.len(),
{
    if slots.len() == 0 {
        None
    } else {
        match slot_spec(slots.drop_last(), id) {
            Some(s) => Some(s),
            None => if slots.last().0 == id { Some(slots.last().1) } else { None },
        }
    }
}

proof fn lemma_entry_prefix(entries: Seq<(LabelId, usize)>, n: int, label: LabelId)
    requires
        0 <= n <= entries.len(),
        entry_for(entries.subrange(0, n), label) is Some,
    ensures
        entry_for(entries, label) == entry_for(entries.subrange(0, n), label),
    decreases entries.len() - n,
{
    if n < entries.len() {
        assert(entries.subrange(0, n + 1).drop_last() =~= entries.subrange(0, n));
        lemma_entry_prefix(entries, n + 1, label);
    } else {
        assert(entries.subrange(0, n) =~= entries);
    }
}

fn find_slot(slots: &Vec<(ValueId, u32)>, id: ValueId) -> (r: Option<u32>)
    ensures
        r == slot_spec(slots@, id),
{
    let mut i: usize = 0;
    while i < slots.len()
        invariant
            i <= slots@.len(),
            slot_spec(slots@.subrange(0, i as int), id) is None,
        decreases slots@.len() - i,
    {
        assert(slots@.subrange(0, i + 1).drop_last() =~= slots@.subrange(0, i as int));
        if slots[i].0 == id {
            proof {
                lemma_slot_prefix(slots@, i + 1, id);
            }
            return Some(slots[i].1);
        }
        i = i + 1;
    }
    assert(slots@.subrange(0, slots@.len() as int) =~= slots@);
    None
}

proof fn lemma_slot_prefix(slots: Seq<(ValueId, u32)>, n: int, id: ValueId)
    requires
        0 <= n <= slots.len(),
        slot_spec(slots.subrange(0, n), id) is Some,
    ensures
        slot_spec(slots, id) == slot_spec(slots.subrange(0, n), id),
    decreases slots.len() - n,
{
    if n < slots.len() {
        assert(slots.subrange(0, n + 1).drop_last() =~= slots.subrange(0, n));
        lemma_slot_prefix(slots, n + 1, id);
    } else {
        assert(slots.subrange(0, n) =~= slots);
    }
}

/// The image constructed at `resource` among `instructions`, as its format and sample count.
pub open spec fn constructed_image(instructions: Seq<(ValueId, IR)>, resource: ValueId) -> Option<(i32, u32)> {
    if exists|k: int| 0 <= k < instructions.len() && (#[trigger] instructions[k]).0 == resource {
        let k = choose|k: int| 0 <= k < instructions.len() && (#[trigger] instructions[k]).0 == resource;
        match instructions[k].1 {
            IR::ConstructImage { format, samples, .. } => Some((format, samples)),
            _ => None,
        }
    } else {
        None
    }
}

/// A compiled render graph: its instructions in the order they run, and the variables the
/// caller fills in between runs, each reached through the id it was declared under.
pub struct Program {
    instructions: Vec<(ValueId, IR)>,
    variables: Vec<Variable>,
    slots: Vec<(ValueId, u32)>,
    labels: Vec<(LabelId, usize)>,
    bound: Vec<(ValueId, u32)>,
}

impl Program {
    pub closed spec fn instruction_list(&self) -> Seq<(ValueId, IR)> {
        self.instructions@
    }

    pub closed spec fn variable_list(&self) -> Seq<Variable> {
        self.variables@
    }

    pub closed spec fn slot_list(&self) -> Seq<(ValueId, u32)> {
        self.slots@
    }

    pub closed spec fn bound_list(&self) -> Seq<(ValueId, u32)> {
        self.bound@
    }

    pub closed spec fn label_list(&self) -> Seq<(LabelId, usize)> {
        self.labels@
    }

    /// The program's label table lists every label its instructions open, where each does.
    pub open spec fn wf(&self) -> bool {
        &&& self.label_list() == label_entries(self.instruction_list(), self.instruction_list().len() as int)
        &&& forall|k: int| 0 <= k < self.bound_list().len() ==> {
            let (resource, slot) = #[trigger] self.bound_list()[k];
            slot < self.variable_list().len() && self.variable_list()[slot as int].resource == Some(resource)
        }
    }

    /// Some variable is bound to `resource`.
    pub open spec fn is_bound(&self, resource: ValueId) -> bool {
        exists|k: int| 0 <= k < self.bound_list().len() && (#[trigger] self.bound_list()[k]).0 == resource
    }

    /// A program of `instructions`, whose variable `id` is `variables[slot]` for each
    /// `(id, slot)` of `slots`. Each label is found at the position it opens its block at,
    /// and each variable a resource is bound to is found under that resource where the
    /// program still holds it.
    pub fn new(instructions: Vec<(ValueId, IR)>, variables: Vec<Variable>, slots: Vec<(ValueId, u32)>) -> (r: Program)
        ensures
            r.instruction_list() == instructions@,
            r.variable_list() == variables@,
            r.slot_list() == slots@,
            r.label_list() == label_entries(instructions@, instructions@.len() as int),
            r.wf(),
            forall|k: int| 0 <= k < r.bound_list().len() ==> {
                let (resource, slot) = #[trigger] r.bound_list()[k];
                &&& slot < variables@.len()
                &&& variables@[slot as int].resource == Some(resource)
                &&& exists|j: int| 0 <= j < instructions@.len() && (#[trigger] instructions@[j]).0 == resource
            },
    {
        let mut labels: Vec<(LabelId, usize)> = Vec::new();
        let mut i: usize = 0;
        while i < instructions.len()
            invariant
                i <= instructions@.len(),
                labels@ == label_entries(instructions@, i as int),
            decreases instructions@.len() - i,
        {
            if let IR::Label { label } = &instructions[i].1 {
                labels.push((*label, i));
            }
            proof {
                let next = label_entries(instructions@, i + 1);
                match instructions@[i as int].1 {
                    IR::Label { label } => assert(next =~= labels@),
                    _ => assert(next =~= labels@),
                }
            }
            i = i + 1;
        }
        let mut bound: Vec<(ValueId, u32)> = Vec::new();
        let mut slot: usize = 0;
        while slot < variables.len()
            invariant
                slot <= variables@.len(),
                forall|k: int| 0 <= k < bound@.len() ==> {
                    let (resource, s) = #[trigger] bound@[k];
                    &&& s < variables@.len()
                    &&& variables@[s as int].resource == Some(resource)
                    &&& exists|j: int| 0 <= j < instructions@.len() && (#[trigger] instructions@[j]).0 == resource
                },
            decreases variables@.len() - slot,
        {
            if let Some(resource) = variables[slot].resource {
                let mut found = false;
                let mut j: usize = 0;
                while j < instructions.len()
                    invariant
                        j <= instructions@.len(),
                        found ==> exists|q: int| 0 <= q < instructions@.len() && (#[trigger] instructions@[q]).0 == resource,
                    decreases instructions@.len() - j,
                {
                    if instructions[j].0 == resource {
                        found = true;
                    }
                    j = j + 1;
                }
                if found && slot <= u32::MAX as usize {
                    bound.push((resource, slot as u32));
                }
            }
            slot = slot + 1;
        }
        Program { instructions, variables, slots, labels, bound }
    }

    /// The instructions in the order they run.
    pub fn instructions(&self) -> (r: &Vec<(ValueId, IR)>)
        ensures
            r@ == self.instruction_list(),
    {
        &self.instructions
    }

    /// The variables, by slot.
    pub fn variables(&self) -> (r: &Vec<Variable>)
        ensures
            r@ == self.variable_list(),
    {
        &self.variables
    }

    /// The variable in `slot`.
    pub fn variable(&self, slot: u32) -> (r: Option<&Variable>)
        ensures
            slot < self.variable_list().len() ==> r == Some(&self.variable_list()[slot as int]),
            slot >= self.variable_list().len() ==> r is None,
    {
        if (slot as usize) < self.variables.len() {
            Some(&self.variables[slot as usize])
        } else {
            None
        }
    }

    /// Where the block `label` opens among the instructions.
    pub fn label_index(&self, label: LabelId) -> (r: Option<usize>)
        ensures
            r == entry_for(self.label_list(), label),
    {
        let mut i: usize = 0;
        while i < self.labels.len()
            invariant
                i <= self.labels@.len(),
                entry_for(self.labels@.subrange(0, i as int), label) is None,
            decreases self.labels@.len() - i,
        {
            proof {
                assert(self.labels@.subrange(0, i + 1).drop_last() =~= self.labels@.subrange(0, i as int));
            }
            if self.labels[i].0 == label {
                proof {
                    lemma_entry_prefix(self.labels@, i + 1, label);
                }
                return Some(self.labels[i].1);
            }
            i = i + 1;
        }
        proof {
            assert(self.labels@.subrange(0, self.labels@.len() as int) =~= self.labels@);
        }
        None
    }

    /// A label's entry found among the program's labels is where it first opens a block.
    pub proof fn lemma_label_index(&self, label: LabelId)
        requires
            self.label_list() == label_entries(self.instruction_list(), self.instruction_list().len() as int),
            self.instruction_list().len() < usize::MAX,
        ensures
            entry_for(self.label_list(), label) == (match label_position(self.instruction_list(), label) {
                Some(i) => Some(i as usize),
                None => None,
            }),
    {
        lemma_entry_for(self.instruction_list(), self.instruction_list().len() as int, label);
        assert(self.instruction_list().subrange(0, self.instruction_list().len() as int) =~= self.instruction_list());
    }

    /// The variable `resource` is bound to, where it is bound to one.
    pub fn bound(&self, resource: ValueId) -> (r: Option<&Variable>)
        requires
            self.wf(),
        ensures
            r matches Some(v) ==> v.resource == Some(resource),
            r is Some <==> self.is_bound(resource),
    {
        let mut i: usize = 0;
        while i < self.bound.len()
            invariant
                i <= self.bound@.len(),
                self.wf(),
                forall|k: int| 0 <= k < i ==> (#[trigger] self.bound@[k]).0 != resource,
            decreases self.bound@.len() - i,
        {
            proof {
                let e = self.bound_list()[i as int];
            }
            if self.bound[i].0 == resource {
                let slot = self.bound[i].1 as usize;
                if slot < self.variables.len() && self.variables[slot].resource == Some(resource) {
                    return Some(&self.variables[slot]);
                }
            }
            i = i + 1;
        }
        None
    }

    /// The resources bound to variables, in slot order.
    pub open spec fn bound_ids(&self) -> Seq<ValueId> {
        self.bound_list().map_values(|e: (ValueId, u32)| e.0)
    }

    /// The program written out, a line an instruction; see [`crate::dump::dump_with`].
    pub fn dump_with(&self, syntax_highlighting: bool) -> (r: String)
        ensures
            !syntax_highlighting ==> crate::dump::starts_with(r@, crate::dump::dump_header(self.instruction_list())),
            !syntax_highlighting ==> r@ == crate::dump::dump_text(self.instruction_list(), self.bound_ids()),
            syntax_highlighting ==> r@ == crate::dump::text_painted(
                crate::dump::dump_text(self.instruction_list(), self.bound_ids()),
            ),
            syntax_highlighting && crate::dump::plain(crate::dump::dump_text(self.instruction_list(), self.bound_ids()))
                ==> crate::dump::closed(r@) && crate::dump::shown(r@) == {
                let text = crate::dump::dump_text(self.instruction_list(), self.bound_ids());
                if text.len() == 0 || text.last() == '\n' {
                    text
                } else {
                    text.push('\n')
                }
            },
    {
        let bound = self.bound_resources();
        proof {
            assert(bound@ =~= self.bound_ids());
        }
        crate::dump::dump_with(&self.instructions, bound, syntax_highlighting)
    }

    /// The program written out without highlighting.
    pub fn dump(&self) -> (r: String)
        ensures
            crate::dump::starts_with(r@, crate::dump::dump_header(self.instruction_list())),
            r@ == crate::dump::dump_text(self.instruction_list(), self.bound_ids()),
    {
        self.dump_with(false)
    }

    /// The resources bound to variables, in slot order.
    pub fn bound_resources(&self) -> (r: Vec<ValueId>)
        ensures
            r@.len() == self.bound_list().len(),
            forall|k: int| 0 <= k < r@.len() ==> #[trigger] r@[k] == self.bound_list()[k].0,
    {
        let mut out: Vec<ValueId> = Vec::new();
        let mut i: usize = 0;
        while i < self.bound.len()
            invariant
                i <= self.bound@.len(),
                out@.len() == i,
                forall|k: int| 0 <= k < i ==> #[trigger] out@[k] == self.bound@[k].0,
            decreases self.bound@.len() - i,
        {
            out.push(self.bound[i].0);
            i = i + 1;
        }
        out
    }

    /// An image given to `variable` is of the format and sample count the image resource it
    /// is bound to was declared with.
    pub open spec fn image_fits(&self, variable: ValueId, value: Value) -> bool {
        match (slot_spec(self.slot_list(), variable), value) {
            (Some(slot), Value::ImageAttachment(a)) => match self.variable_list()[slot as int].resource {
                Some(resource) => match constructed_image(self.instruction_list(), resource) {
                    Some((format, samples)) => a.format == format && a.samples == samples,
                    None => true,
                },
                None => true,
            },
            _ => true,
        }
    }

    /// The variable `variable` is filled in with `value` for the next run, which has to be of
    /// the kind it was declared with; an image given to a variable an image resource is bound
    /// to has to be of the format and sample count it was declared with.
    pub fn set(&mut self, variable: ValueId, value: Value)
        requires
            slot_spec(old(self).slot_list(), variable) matches Some(slot) && slot < old(self).variable_list().len()
                && value_kind(value) == Some(old(self).variable_list()[slot as int].kind),
            old(self).image_fits(variable, value),
        ensures
            final(self).instruction_list() == old(self).instruction_list(),
            final(self).label_list() == old(self).label_list(),
            final(self).bound_list() == old(self).bound_list(),
            old(self).wf() ==> final(self).wf(),
            final(self).slot_list() == old(self).slot_list(),
            final(self).variable_list().len() == old(self).variable_list().len(),
            slot_spec(old(self).slot_list(), variable) matches Some(slot) && final(self).variable_list()[slot as int].value
                == value && final(self).variable_list()[slot as int].kind == old(self).variable_list()[slot as int].kind
                && final(self).variable_list()[slot as int].resource == old(self).variable_list()[slot as int].resource
                && final(self).variable_list()[slot as int].name == old(self).variable_list()[slot as int].name,
            forall|k: int|
                0 <= k < old(self).variable_list().len() && Some(k as u32) != slot_spec(old(self).slot_list(), variable)
                    ==> #[trigger] final(self).variable_list()[k] == old(self).variable_list()[k],
    {
        let slot = find_slot(&self.slots, variable).unwrap() as usize;
        let kind = self.variables[slot].kind;
        let name = match &self.variables[slot].name {
            Some(n) => Some(n.clone()),
            None => None,
        };
        let resource = self.variables[slot].resource;
        let ghost before = self.variables@;
        self.variables.set(slot, Variable { kind, name, value, resource });
        proof {
            assert(self.variables@[slot as int].value == value);
        }
    }
}

} // verus!
