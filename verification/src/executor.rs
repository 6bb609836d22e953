//! What running a compiled program decides, apart from the commands it records: which
//! instruction comes next, which value a phi takes, how big a render area or a dispatch is,
//! which descriptors a pass has written and which sets a pipeline is bound with.
use vstd::prelude::*;

use crate::ids::{LabelId, ValueId};
use crate::ir::{Constant, IR, DESCRIPTOR_TYPE_COMBINED_IMAGE_SAMPLER};
use crate::analysis::DescriptorBinding;
use crate::state::{max_int, merged_byte, min_int, PushConstants, PushSource};
use crate::program::{label_position, Program, Value};
use crate::resource::{Extent2D, Extent3D, ImageAttachment, Offset3D, VIEW_TYPE_2D_ARRAY};

verus! {

/// Why a run stopped.
#[derive(Debug, Clone, Copy, PartialEq, Eq, Structural)]
pub enum ExecError {
    /// A branch names a label no block opens with.
    UnknownLabel,
    /// A phi has no value for the block the run came from.
    NoIncoming,
    /// A pass opens with no attachment and no render area to size it by.
    NoRenderArea,
    /// A pipeline declares a descriptor the pass did not write.
    MissingDescriptor,
    /// A descriptor names a null view or a null sampler.
    NullHandle,
    /// A descriptor is bound with a sampler where the pipeline declares none, or without one
    /// where it declares one.
    SamplerMismatch,
    /// Pushed bytes or a pushed address do not fit the block they were declared in.
    PushConstantsMismatch,
    /// An index picks past the end of the array it indexes.
    IndexOutOfRange,
}

/// Where a run stands: the instruction it is at, the block it is in, and the block it came
/// from through the last branch.
#[derive(Debug, Clone, Copy, PartialEq, Eq, Structural)]
pub struct Walk {
    pub pc: usize,
    pub block: Option<LabelId>,
    pub arrived_from: Option<LabelId>,
}

/// What one step of a run asks the caller to do.
#[derive(Debug, Clone, Copy, PartialEq, Eq, Structural)]
pub enum Visit {
    /// Nothing: the step only moved the run along.
    Skip,
    /// Execute the instruction at this position.
    Run(usize),
    /// The phi at this position stands for this value.
    Choose { at: usize, value: ValueId },
    /// The run is over.
    Finish,
}

/// The value a phi takes when the run came from `from`: the first incoming value whose block
/// it is.
pub open spec fn chosen_spec(incoming: Seq<(ValueId, LabelId)>, from: Option<LabelId>) -> Option<ValueId>
    decreases incoming.len(),
{
    if incoming.len() == 0 {
        None
    } else {
        match chosen_spec(incoming.drop_last(), from) {
            Some(v) => Some(v),
            None => if from == Some(incoming.last().1) { Some(incoming.last().0) } else { None },
        }
    }
}

fn chosen(incoming: &Vec<(ValueId, LabelId)>, from: Option<LabelId>) -> (r: Option<ValueId>)
    ensures
        r == chosen_spec(incoming@, from),
{
    let mut i: usize = 0;
    while i < incoming.len()
        invariant
            i <= incoming@.len(),
            chosen_spec(incoming@.subrange(0, i as int), from) is None,
        decreases incoming@.len() - i,
    {
        proof {
            assert(incoming@.subrange(0, i + 1).drop_last() =~= incoming@.subrange(0, i as int));
        }
        if from == Some(incoming[i].1) {
            proof {
                lemma_chosen_prefix(incoming@, i + 1, from);
            }
            return Some(incoming[i].0);
        }
        i = i + 1;
    }
    proof {
        assert(incoming@.subrange(0, incoming@.len() as int) =~= incoming@);
    }
    None
}

proof fn lemma_chosen_prefix(incoming: Seq<(ValueId, LabelId)>, n: int, from: Option<LabelId>)
    requires
        0 <= n <= incoming.len(),
        chosen_spec(incoming.subrange(0, n), from) is Some,
    ensures
        chosen_spec(incoming, from) == chosen_spec(incoming.subrange(0, n), from),
    decreases incoming.len() - n,
{
    if n < incoming.len() {
        assert(incoming.subrange(0, n + 1).drop_last() =~= incoming.subrange(0, n));
        lemma_chosen_prefix(incoming, n + 1, from);
    } else {
        assert(incoming.subrange(0, n) =~= incoming);
    }
}

/// Where a branch to `target` goes: the position of the block `target` opens.
pub open spec fn target_of(program: &Program, target: LabelId) -> Option<usize> {
    match label_position(program.instruction_list(), target) {
        Some(i) => Some(i as usize),
        None => None,
    }
}

impl Walk {
    /// A run at the first instruction, in no block yet.
    pub fn start() -> (r: Walk)
        ensures
            r == (Walk { pc: 0, block: None, arrived_from: None }),
    {
        Walk { pc: 0, block: None, arrived_from: None }
    }

    /// One step of a run of `program`, `condition` being what the branch at the current
    /// instruction branches on where it branches conditionally. A label enters its block; a
    /// branch moves to the block it names, remembering the one it left; a phi stands for the
    /// value that comes from the block the run came from; a return, or running out of
    /// instructions, ends the run; a resource a variable is bound to is not constructed;
    /// everything else is executed.
    pub fn step(&mut self, program: &Program, condition: bool) -> (r: Result<Visit, ExecError>)
        requires
            program.wf(),
            program.instruction_list().len() < usize::MAX,
        ensures
            ({
                let at = old(self).pc as int;
                let instrs = program.instruction_list();
                if at >= instrs.len() {
                    r == Ok::<Visit, ExecError>(Visit::Finish) && *final(self) == *old(self)
                } else {
                    let (id, ir) = instrs[at];
                    match ir {
                        IR::Label { label } => r == Ok::<Visit, ExecError>(Visit::Skip) && *final(self) == (Walk {
                            pc: (old(self).pc + 1) as usize,
                            block: Some(label),
                            ..*old(self)
                        }),
                        IR::Branch { target } => match target_of(program, target) {
                            Some(to) => r == Ok::<Visit, ExecError>(Visit::Skip) && *final(self) == (Walk {
                                pc: to,
                                arrived_from: old(self).block,
                                ..*old(self)
                            }),
                            None => r == Err::<Visit, ExecError>(ExecError::UnknownLabel),
                        },
                        IR::BranchConditional { true_label, false_label, .. } => match target_of(
                            program,
                            if condition { true_label } else { false_label },
                        ) {
                            Some(to) => r == Ok::<Visit, ExecError>(Visit::Skip) && *final(self) == (Walk {
                                pc: to,
                                arrived_from: old(self).block,
                                ..*old(self)
                            }),
                            None => r == Err::<Visit, ExecError>(ExecError::UnknownLabel),
                        },
                        IR::Return => r == Ok::<Visit, ExecError>(Visit::Finish) && *final(self) == *old(self),
                        IR::Phi { incoming } => match chosen_spec(incoming@, old(self).arrived_from) {
                            Some(value) => r == Ok::<Visit, ExecError>(Visit::Choose { at: old(self).pc, value })
                                && *final(self) == (Walk { pc: (old(self).pc + 1) as usize, ..*old(self) }),
                            None => r == Err::<Visit, ExecError>(ExecError::NoIncoming),
                        },
                        IR::SelectionMerge { .. } => r == Ok::<Visit, ExecError>(Visit::Skip) && *final(self) == (Walk {
                            pc: (old(self).pc + 1) as usize,
                            ..*old(self)
                        }),
                        _ => if (ir is ConstructBuffer || ir is ConstructImage) && program.is_bound(id) {
                            r == Ok::<Visit, ExecError>(Visit::Skip) && *final(self) == (Walk {
                                pc: (old(self).pc + 1) as usize,
                                ..*old(self)
                            })
                        } else {
                            r == Ok::<Visit, ExecError>(Visit::Run(old(self).pc)) && *final(self) == (Walk {
                                pc: (old(self).pc + 1) as usize,
                                ..*old(self)
                            })
                        },
                    }
                }
            }),
    {
        let instrs = program.instructions();
        if self.pc >= instrs.len() {
            return Ok(Visit::Finish);
        }
        let at = self.pc;
        let id = instrs[at].0;
        match &instrs[at].1 {
            IR::Label { label } => {
                self.block = Some(*label);
                self.pc = at + 1;
                Ok(Visit::Skip)
            },
            IR::SelectionMerge { .. } => {
                self.pc = at + 1;
                Ok(Visit::Skip)
            },
            IR::Branch { target } => {
                proof {
                    program.lemma_label_index(*target);
                }
                match program.label_index(*target) {
                    Some(to) => {
                        self.arrived_from = self.block;
                        self.pc = to;
                        Ok(Visit::Skip)
                    },
                    None => Err(ExecError::UnknownLabel),
                }
            },
            IR::BranchConditional { true_label, false_label, .. } => {
                let taken = if condition { *true_label } else { *false_label };
                proof {
                    program.lemma_label_index(taken);
                }
                match program.label_index(taken) {
                    Some(to) => {
                        self.arrived_from = self.block;
                        self.pc = to;
                        Ok(Visit::Skip)
                    },
                    None => Err(ExecError::UnknownLabel),
                }
            },
            IR::Return => Ok(Visit::Finish),
            IR::Phi { incoming } => match chosen(incoming, self.arrived_from) {
                Some(value) => {
                    self.pc = at + 1;
                    Ok(Visit::Choose { at, value })
                },
                None => Err(ExecError::NoIncoming),
            },
            IR::ConstructBuffer { .. } | IR::ConstructImage { .. } => {
                let bound = program.bound(id).is_some();
                self.pc = at + 1;
                if bound {
                    Ok(Visit::Skip)
                } else {
                    Ok(Visit::Run(at))
                }
            },
            _ => {
                self.pc = at + 1;
                Ok(Visit::Run(at))
            },
        }
    }
}

/// The workgroups a dispatch of `invocations` takes with workgroups of `local_size`: enough
/// on each axis to cover every invocation.
pub fn groups_for(invocations: [u32; 3], local_size: [u32; 3]) -> (r: [u32; 3])
    requires
        local_size[0] > 0 && local_size[1] > 0 && local_size[2] > 0,
    ensures
        forall|axis: int|
            0 <= axis < 3 ==> #[trigger] r[axis] == (invocations[axis] + local_size[axis] - 1) / (local_size[axis] as int),
{
    let x = ceil_div(invocations[0], local_size[0]);
    let y = ceil_div(invocations[1], local_size[1]);
    let z = ceil_div(invocations[2], local_size[2]);
    let r = [x, y, z];
    assert(forall|axis: int| 0 <= axis < 3 ==> #[trigger] r[axis] == (invocations[axis] + local_size[axis] - 1) / (
    local_size[axis] as int)) by {
        assert(r[0] == x && r[1] == y && r[2] == z);
    }
    r
}

/// `n` divided by `d`, rounded up.
pub fn ceil_div(n: u32, d: u32) -> (r: u32)
    requires
        d > 0,
    ensures
        r == (n + d - 1) / (d as int),
{
    let q = n / d;
    if n % d == 0 {
        proof {
            lemma_ceil_exact(n as int, d as int);
        }
        q
    } else {
        proof {
            lemma_ceil_rest(n as int, d as int);
        }
        q + 1
    }
}

proof fn lemma_ceil_exact(n: int, d: int)
    by (nonlinear_arith)
    requires
        n >= 0,
        d > 0,
        n % d == 0,
    ensures
        (n + d - 1) / d == n / d,
{
    let q = n / d;
    assert(n == q * d);
    assert(n + d - 1 == q * d + (d - 1));
}

proof fn lemma_ceil_rest(n: int, d: int)
    by (nonlinear_arith)
    requires
        n >= 0,
        d > 0,
        n % d != 0,
    ensures
        (n + d - 1) / d == n / d + 1,
        n / d + 1 <= n,
{
    let q = n / d;
    let m = n % d;
    assert(n == q * d + m && 0 < m < d);
    assert(n + d - 1 == (q + 1) * d + (m - 1));
}

/// The corners a blit copies between: the origin, and the far corner of `extent`, a depth of
/// zero taken as one.
pub fn blit_offsets(extent: Extent3D) -> (r: [Offset3D; 2])
    ensures
        r[0] == (Offset3D { x: 0, y: 0, z: 0 }),
        r[1] == (Offset3D {
            x: extent.width as i32,
            y: extent.height as i32,
            z: (if extent.depth > 1 { extent.depth } else { 1 }) as i32,
        }),
{
    let depth = if extent.depth > 1 { extent.depth } else { 1 };
    [Offset3D { x: 0, y: 0, z: 0 }, Offset3D { x: extent.width as i32, y: extent.height as i32, z: depth as i32 }]
}

/// Vulkan's raw image types.
pub const IMAGE_TYPE_1D: i32 = 0;

pub const IMAGE_TYPE_2D: i32 = 1;

pub const IMAGE_TYPE_3D: i32 = 2;

/// Vulkan's raw view types of one and three dimensions.
pub const VIEW_TYPE_1D: i32 = 0;

pub const VIEW_TYPE_3D: i32 = 2;

pub const VIEW_TYPE_1D_ARRAY: i32 = 4;

/// The type of image a view of `view_type` is a view of: one dimension for the views of one,
/// three for the 3D view, two for every other.
pub fn image_type(view_type: i32) -> (r: i32)
    ensures
        r == if view_type == VIEW_TYPE_1D || view_type == VIEW_TYPE_1D_ARRAY {
            IMAGE_TYPE_1D
        } else if view_type == VIEW_TYPE_3D {
            IMAGE_TYPE_3D
        } else {
            IMAGE_TYPE_2D
        },
{
    if view_type == VIEW_TYPE_1D || view_type == VIEW_TYPE_1D_ARRAY {
        IMAGE_TYPE_1D
    } else if view_type == VIEW_TYPE_3D {
        IMAGE_TYPE_3D
    } else {
        IMAGE_TYPE_2D
    }
}

/// The layers of one mip an attachment's view covers, as a copy or blit names them.
#[derive(Debug, Clone, Copy, PartialEq, Eq, Structural)]
pub struct SubresourceLayers {
    pub aspect_mask: u32,
    pub mip_level: u32,
    pub base_array_layer: u32,
    pub layer_count: u32,
}

/// The first mip of what `attachment`'s view covers, with all its layers.
pub fn subresource_layers(attachment: &ImageAttachment) -> (r: SubresourceLayers)
    ensures
        r == (SubresourceLayers {
            aspect_mask: attachment.subresource_range.aspect_mask,
            mip_level: attachment.subresource_range.base_mip_level,
            base_array_layer: attachment.subresource_range.base_array_layer,
            layer_count: attachment.subresource_range.layer_count,
        }),
{
    let range = attachment.subresource_range;
    SubresourceLayers {
        aspect_mask: range.aspect_mask,
        mip_level: range.base_mip_level,
        base_array_layer: range.base_array_layer,
        layer_count: range.layer_count,
    }
}

/// The extent a rendering pass covers: its render area where it has one, else the extent of
/// its first color attachment, else that of its depth attachment; none where it has neither.
pub fn render_extent(render_area: Option<Extent2D>, colors: &Vec<Extent3D>, depth: Option<Extent3D>) -> (r: Result<
    Extent2D,
    ExecError,
>)
    ensures
        r == (match render_area {
            Some(area) => Ok::<Extent2D, ExecError>(area),
            None => if colors@.len() > 0 {
                Ok(Extent2D { width: colors@[0].width, height: colors@[0].height })
            } else {
                match depth {
                    Some(d) => Ok(Extent2D { width: d.width, height: d.height }),
                    None => Err(ExecError::NoRenderArea),
                }
            },
        }),
{
    match render_area {
        Some(area) => Ok(area),
        None => if colors.len() > 0 {
            Ok(Extent2D { width: colors[0].width, height: colors[0].height })
        } else {
            match depth {
                Some(d) => Ok(Extent2D { width: d.width, height: d.height }),
                None => Err(ExecError::NoRenderArea),
            }
        },
    }
}

/// A descriptor as a pass wrote it, resolved to raw handles: where it is written, the view of
/// its image, and its sampler, where it has one.
#[derive(Debug, Clone, Copy, PartialEq, Eq, Hash, Structural)]
pub struct ResolvedImageDescriptor {
    pub set: u32,
    pub binding: u32,
    pub image_view: u64,
    pub sampler: Option<u64>,
}

/// Descriptors are ordered by their set, then by their binding.
pub open spec fn descriptor_before(a: ResolvedImageDescriptor, b: ResolvedImageDescriptor) -> bool {
    a.set < b.set || (a.set == b.set && a.binding < b.binding)
}

/// The descriptors of a table stand in set, then binding order, each place once.
pub open spec fn table_sorted(table: Seq<ResolvedImageDescriptor>) -> bool {
    forall|i: int, j: int| 0 <= i < j < table.len() ==> descriptor_before(#[trigger] table[i], #[trigger] table[j])
}

/// The descriptor a table holds at `set` and `binding`.
pub open spec fn descriptor_at(table: Seq<ResolvedImageDescriptor>, set: u32, binding: u32) -> Option<
    ResolvedImageDescriptor,
> {
    if exists|k: int| 0 <= k < table.len() && (#[trigger] table[k]).set == set && table[k].binding == binding {
        let k = choose|k: int| 0 <= k < table.len() && (#[trigger] table[k]).set == set && table[k].binding == binding;
        Some(table[k])
    } else {
        None
    }
}

/// In a sorted table, the descriptor at a place is the entry that stands there.
pub proof fn lemma_descriptor_at(table: Seq<ResolvedImageDescriptor>, k: int)
    requires
        table_sorted(table),
        0 <= k < table.len(),
    ensures
        descriptor_at(table, table[k].set, table[k].binding) == Some(table[k]),
{
    let (s, b) = (table[k].set, table[k].binding);
    let q = choose|q: int| 0 <= q < table.len() && (#[trigger] table[q]).set == s && table[q].binding == b;
    if q < k {
        assert(descriptor_before(table[q], table[k]));
    } else if q > k {
        assert(descriptor_before(table[k], table[q]));
    }
}

/// Writes `written` into a pass's table of descriptors, in place of what stood at its set and
/// binding. Says whether the table changed: it does not where the same descriptor already
/// stands there.
pub fn write_active(table: &mut Vec<ResolvedImageDescriptor>, written: ResolvedImageDescriptor) -> (changed: bool)
    requires
        table_sorted(old(table)@),
    ensures
        table_sorted(final(table)@),
        changed == (descriptor_at(old(table)@, written.set, written.binding) != Some(written)),
        descriptor_at(final(table)@, written.set, written.binding) == Some(written),
        forall|s: u32, b: u32|
            !(s == written.set && b == written.binding) ==> #[trigger] descriptor_at(final(table)@, s, b)
                == descriptor_at(old(table)@, s, b),
{
    let ghost before = table@;
    let mut i: usize = 0;
    let mut stop = false;
    while i < table.len() && !stop
        invariant
            i <= table@.len(),
            table@ == before,
            before == old(table)@,
            table_sorted(before),
            forall|q: int| 0 <= q < i ==> descriptor_before(#[trigger] table@[q], written),
            stop ==> i < table@.len() && !descriptor_before(table@[i as int], written) && !(table@[i as int].set
                == written.set && table@[i as int].binding == written.binding),
        decreases table@.len() - i, if stop { 0int } else { 1int },
    {
        let here = table[i];
        if here.set == written.set && here.binding == written.binding {
            proof {
                lemma_descriptor_at(before, i as int);
            }
            if here == written {
                return false;
            }
            table.set(i, written);
            proof {
                lemma_replaced(before, table@, i as int, written);
            }
            return true;
        }
        if !(here.set < written.set || (here.set == written.set && here.binding < written.binding)) {
            stop = true;
        } else {
            i = i + 1;
        }
    }
    proof {
        assert forall|q: int| i <= q < before.len() implies descriptor_before(written, #[trigger] before[q]) by {
            if q > i {
                assert(descriptor_before(before[i as int], before[q]));
            }
        }
        assert(descriptor_at(before, written.set, written.binding) is None) by {
            if exists|k: int| 0 <= k < before.len() && (#[trigger] before[k]).set == written.set && before[k].binding
                == written.binding {
                let k = choose|k: int| 0 <= k < before.len() && (#[trigger] before[k]).set == written.set
                    && before[k].binding == written.binding;
                if k < i {
                    assert(descriptor_before(before[k], written));
                } else {
                    assert(descriptor_before(written, before[k]));
                }
            }
        }
    }
    table.insert(i, written);
    proof {
        lemma_inserted(before, table@, i as int, written);
    }
    true
}

proof fn lemma_replaced(before: Seq<ResolvedImageDescriptor>, after: Seq<ResolvedImageDescriptor>, i: int, written: ResolvedImageDescriptor)
    requires
        table_sorted(before),
        0 <= i < before.len(),
        before[i].set == written.set && before[i].binding == written.binding,
        after == before.update(i, written),
    ensures
        table_sorted(after),
        descriptor_at(after, written.set, written.binding) == Some(written),
        forall|s: u32, b: u32|
            !(s == written.set && b == written.binding) ==> #[trigger] descriptor_at(after, s, b) == descriptor_at(before, s, b),
{
    assert forall|p: int, q: int| 0 <= p < q < after.len() implies descriptor_before(#[trigger] after[p], #[trigger] after[q]) by {
        assert(descriptor_before(before[p], before[q]));
    }
    lemma_descriptor_at(after, i);
    assert forall|s: u32, b: u32| !(s == written.set && b == written.binding) implies #[trigger] descriptor_at(after, s, b)
        == descriptor_at(before, s, b) by {
        if exists|k: int| 0 <= k < before.len() && (#[trigger] before[k]).set == s && before[k].binding == b {
            let k = choose|k: int| 0 <= k < before.len() && (#[trigger] before[k]).set == s && before[k].binding == b;
            lemma_descriptor_at(before, k);
            lemma_descriptor_at(after, k);
        } else {
            assert(!exists|k: int| 0 <= k < after.len() && (#[trigger] after[k]).set == s && after[k].binding == b) by {
                if exists|k: int| 0 <= k < after.len() && (#[trigger] after[k]).set == s && after[k].binding == b {
                    let k = choose|k: int| 0 <= k < after.len() && (#[trigger] after[k]).set == s && after[k].binding == b;
                    assert(before[k].set == s);
                }
            }
        }
    }
}

proof fn lemma_inserted(before: Seq<ResolvedImageDescriptor>, after: Seq<ResolvedImageDescriptor>, i: int, written: ResolvedImageDescriptor)
    requires
        table_sorted(before),
        0 <= i <= before.len(),
        forall|q: int| 0 <= q < i ==> descriptor_before(#[trigger] before[q], written),
        forall|q: int| i <= q < before.len() ==> descriptor_before(written, #[trigger] before[q]),
        after == before.insert(i, written),
    ensures
        table_sorted(after),
        descriptor_at(after, written.set, written.binding) == Some(written),
        forall|s: u32, b: u32|
            !(s == written.set && b == written.binding) ==> #[trigger] descriptor_at(after, s, b) == descriptor_at(before, s, b),
{
    assert forall|p: int, q: int| 0 <= p < q < after.len() implies descriptor_before(#[trigger] after[p], #[trigger] after[q]) by {
        if p < i && q > i {
            assert(after[q] == before[q - 1]);
            assert(descriptor_before(before[p], before[q - 1]));
        } else if p == i && q > i {
            assert(after[q] == before[q - 1]);
        } else if p > i {
            assert(after[p] == before[p - 1] && after[q] == before[q - 1]);
            assert(descriptor_before(before[p - 1], before[q - 1]));
        }
    }
    lemma_descriptor_at(after, i);
    assert forall|s: u32, b: u32| !(s == written.set && b == written.binding) implies #[trigger] descriptor_at(after, s, b)
        == descriptor_at(before, s, b) by {
        if exists|k: int| 0 <= k < before.len() && (#[trigger] before[k]).set == s && before[k].binding == b {
            let k = choose|k: int| 0 <= k < before.len() && (#[trigger] before[k]).set == s && before[k].binding == b;
            lemma_descriptor_at(before, k);
            let k2 = if k < i { k } else { k + 1 };
            assert(after[k2] == before[k]);
            lemma_descriptor_at(after, k2);
        } else {
            assert(!exists|k: int| 0 <= k < after.len() && (#[trigger] after[k]).set == s && after[k].binding == b) by {
                if exists|k: int| 0 <= k < after.len() && (#[trigger] after[k]).set == s && after[k].binding == b {
                    let k = choose|k: int| 0 <= k < after.len() && (#[trigger] after[k]).set == s && after[k].binding == b;
                    if k < i {
                        assert(after[k] == before[k]);
                    } else if k > i {
                        assert(after[k] == before[k - 1]);
                    }
                }
            }
        }
    }
}

/// The descriptor a pass wrote for a binding a pipeline declares, checked: it has to be
/// written, name a view and, where it names one, a sampler, and name a sampler exactly where
/// the binding is a combined image sampler.
pub open spec fn check_descriptor(table: Seq<ResolvedImageDescriptor>, binding: DescriptorBinding) -> Result<
    ResolvedImageDescriptor,
    ExecError,
> {
    match descriptor_at(table, binding.set, binding.binding) {
        None => Err(ExecError::MissingDescriptor),
        Some(d) => if d.image_view == 0 || d.sampler == Some(0u64) {
            Err(ExecError::NullHandle)
        } else if (binding.descriptor_type == DESCRIPTOR_TYPE_COMBINED_IMAGE_SAMPLER) != (d.sampler is Some) {
            Err(ExecError::SamplerMismatch)
        } else {
            Ok(d)
        },
    }
}

/// The descriptors the first `n` bindings of a pipeline are bound with, each with the type
/// the pipeline declares it at, the bindless set left out; the first failed check where one
/// fails.
pub open spec fn plan_spec(
    table: Seq<ResolvedImageDescriptor>,
    bindings: Seq<DescriptorBinding>,
    bindless: Option<u32>,
    n: int,
) -> Result<Seq<(ResolvedImageDescriptor, i32)>, ExecError>
    decreases n,
{
    if n <= 0 {
        Ok(seq![])
    } else {
        match plan_spec(table, bindings, bindless, n - 1) {
            Err(e) => Err(e),
            Ok(planned) => if bindless == Some(bindings[n - 1].set) {
                Ok(planned)
            } else {
                match check_descriptor(table, bindings[n - 1]) {
                    Err(e) => Err(e),
                    Ok(d) => Ok(planned.push((d, bindings[n - 1].descriptor_type))),
                }
            },
        }
    }
}

/// Looks up the descriptor at `set` and `binding` in a sorted table.
pub fn find_descriptor(table: &Vec<ResolvedImageDescriptor>, set: u32, binding: u32) -> (r: Option<ResolvedImageDescriptor>)
    requires
        table_sorted(table@),
    ensures
        r == descriptor_at(table@, set, binding),
{
    let mut i: usize = 0;
    while i < table.len()
        invariant
            i <= table@.len(),
            table_sorted(table@),
            forall|q: int| 0 <= q < i ==> !((#[trigger] table@[q]).set == set && table@[q].binding == binding),
        decreases table@.len() - i,
    {
        if table[i].set == set && table[i].binding == binding {
            proof {
                lemma_descriptor_at(table@, i as int);
            }
            return Some(table[i]);
        }
        i = i + 1;
    }
    None
}

/// The descriptors a pipeline declaring `bindings` is bound with from a pass's table, in the
/// order it declares them, each with the type it declares; the bindless set, which the
/// pipeline is handed whole, left out.
pub fn plan_descriptors(
    table: &Vec<ResolvedImageDescriptor>,
    bindings: &Vec<DescriptorBinding>,
    bindless: Option<u32>,
) -> (r: Result<Vec<(ResolvedImageDescriptor, i32)>, ExecError>)
    requires
        table_sorted(table@),
    ensures
        match r {
            Ok(planned) => plan_spec(table@, bindings@, bindless, bindings@.len() as int) == Ok::<
                Seq<(ResolvedImageDescriptor, i32)>,
                ExecError,
            >(planned@),
            Err(e) => plan_spec(table@, bindings@, bindless, bindings@.len() as int) == Err::<
                Seq<(ResolvedImageDescriptor, i32)>,
                ExecError,
            >(e),
        },
{
    let mut planned: Vec<(ResolvedImageDescriptor, i32)> = Vec::new();
    let mut n: usize = 0;
    while n < bindings.len()
        invariant
            n <= bindings@.len(),
            table_sorted(table@),
            plan_spec(table@, bindings@, bindless, n as int) == Ok::<Seq<(ResolvedImageDescriptor, i32)>, ExecError>(
                planned@,
            ),
        decreases bindings@.len() - n,
    {
        let b = bindings[n];
        if bindless != Some(b.set) {
            let d = match find_descriptor(table, b.set, b.binding) {
                Some(d) => d,
                None => {
                    proof {
                        lemma_plan_fails(table@, bindings@, bindless, n as int + 1);
                    }
                    return Err(ExecError::MissingDescriptor);
                },
            };
            if d.image_view == 0 || d.sampler == Some(0u64) {
                proof {
                    lemma_plan_fails(table@, bindings@, bindless, n as int + 1);
                }
                return Err(ExecError::NullHandle);
            }
            let combined = b.descriptor_type == DESCRIPTOR_TYPE_COMBINED_IMAGE_SAMPLER;
            if combined != d.sampler.is_some() {
                proof {
                    lemma_plan_fails(table@, bindings@, bindless, n as int + 1);
                }
                return Err(ExecError::SamplerMismatch);
            }
            planned.push((d, b.descriptor_type));
        }
        n = n + 1;
    }
    Ok(planned)
}

/// Once the plan fails, it fails with the same error however many bindings follow.
proof fn lemma_plan_fails(
    table: Seq<ResolvedImageDescriptor>,
    bindings: Seq<DescriptorBinding>,
    bindless: Option<u32>,
    n: int,
)
    requires
        0 <= n <= bindings.len(),
        plan_spec(table, bindings, bindless, n) is Err,
    ensures
        plan_spec(table, bindings, bindless, bindings.len() as int) == plan_spec(table, bindings, bindless, n),
    decreases bindings.len() - n,
{
    if n < bindings.len() {
        lemma_plan_fails(table, bindings, bindless, n + 1);
    }
}

/// The entries of the first `n` groups, group by group.
pub open spec fn group_entries(groups: Seq<(u32, Seq<(ResolvedImageDescriptor, i32)>)>, n: int) -> Seq<
    (ResolvedImageDescriptor, i32),
>
    decreases n,
{
    if n <= 0 {
        seq![]
    } else {
        group_entries(groups, n - 1) + groups[n - 1].1
    }
}

/// The views of a list of groups.
pub open spec fn groups_view(groups: Seq<(u32, Vec<(ResolvedImageDescriptor, i32)>)>) -> Seq<
    (u32, Seq<(ResolvedImageDescriptor, i32)>),
> {
    groups.map_values(|g: (u32, Vec<(ResolvedImageDescriptor, i32)>)| (g.0, g.1@))
}

/// The planned descriptors gathered by their set: one group a set, in the order of the sets,
/// each holding that set's descriptors in the order they were planned.
pub fn group_by_set(planned: &Vec<(ResolvedImageDescriptor, i32)>) -> (r: Vec<(u32, Vec<(ResolvedImageDescriptor, i32)>)>)
    requires
        forall|i: int, j: int| 0 <= i < j < planned@.len() ==> (#[trigger] planned@[i]).0.set <= (#[trigger] planned@[j]).0.set,
    ensures
        group_entries(groups_view(r@), r@.len() as int) == planned@,
        forall|g: int| 0 <= g < r@.len() ==> (#[trigger] r@[g]).1@.len() > 0,
        forall|g: int, k: int| 0 <= g < r@.len() && 0 <= k < r@[g].1@.len() ==> (#[trigger] r@[g].1@[k]).0.set == r@[g].0,
        forall|g: int, h: int| 0 <= g < h < r@.len() ==> (#[trigger] r@[g]).0 < (#[trigger] r@[h]).0,
{
    let mut groups: Vec<(u32, Vec<(ResolvedImageDescriptor, i32)>)> = Vec::new();
    let mut current: Vec<(ResolvedImageDescriptor, i32)> = Vec::new();
    let mut current_set: u32 = 0;
    let mut i: usize = 0;
    while i < planned.len()
        invariant
            i <= planned@.len(),
            forall|a: int, b: int| 0 <= a < b < planned@.len() ==> (#[trigger] planned@[a]).0.set <= (#[trigger] planned@[b]).0.set,
            group_entries(groups_view(groups@), groups@.len() as int) + current@ == planned@.subrange(0, i as int),
            i > 0 ==> current@.len() > 0 && current_set == planned@[i - 1].0.set,
            i == 0 ==> current@.len() == 0 && groups@.len() == 0,
            forall|k: int| 0 <= k < current@.len() ==> (#[trigger] current@[k]).0.set == current_set,
            forall|g: int| 0 <= g < groups@.len() ==> (#[trigger] groups@[g]).1@.len() > 0,
            forall|g: int, k: int|
                0 <= g < groups@.len() && 0 <= k < groups@[g].1@.len() ==> (#[trigger] groups@[g].1@[k]).0.set == groups@[g].0,
            forall|g: int, h: int| 0 <= g < h < groups@.len() ==> (#[trigger] groups@[g]).0 < (#[trigger] groups@[h]).0,
            forall|g: int| 0 <= g < groups@.len() ==> (#[trigger] groups@[g]).0 < current_set,
        decreases planned@.len() - i,
    {
        let entry = planned[i];
        let ghost done = group_entries(groups_view(groups@), groups@.len() as int);
        if i > 0 && entry.0.set != current_set {
            assert(planned@[i - 1].0.set <= planned@[i as int].0.set);
            let finished = current;
            let ghost finished_view = finished@;
            let ghost old_groups = groups@;
            groups.push((current_set, finished));
            current = Vec::new();
            proof {
                assert(groups_view(groups@).drop_last() =~= groups_view(old_groups));
                assert(groups_view(groups@)[groups@.len() - 1].1 == finished_view);
                assert(group_entries(groups_view(groups@), groups@.len() as int) == done + finished_view) by {
                    lemma_group_entries_frame(groups_view(old_groups), groups_view(groups@), old_groups.len() as int);
                }
            }
        }
        current_set = entry.0.set;
        current.push(entry);
        proof {
            assert(planned@.subrange(0, i + 1) =~= planned@.subrange(0, i as int).push(entry));
            assert(group_entries(groups_view(groups@), groups@.len() as int) + current@ =~= planned@.subrange(0, i + 1));
        }
        i = i + 1;
    }
    if i > 0 {
        let ghost old_groups = groups@;
        let ghost last = current@;
        let ghost done = group_entries(groups_view(groups@), groups@.len() as int);
        groups.push((current_set, current));
        proof {
            assert(groups_view(groups@).drop_last() =~= groups_view(old_groups));
            lemma_group_entries_frame(groups_view(old_groups), groups_view(groups@), old_groups.len() as int);
        }
    }
    proof {
        assert(planned@.subrange(0, planned@.len() as int) =~= planned@);
    }
    groups
}

/// The entries of a list of groups with one more group at its end are theirs followed by the
/// new group's.
proof fn lemma_group_entries_frame(
    before: Seq<(u32, Seq<(ResolvedImageDescriptor, i32)>)>,
    after: Seq<(u32, Seq<(ResolvedImageDescriptor, i32)>)>,
    n: int,
)
    requires
        0 <= n,
        after.len() == n + 1,
        before.len() == n,
        after.drop_last() == before,
    ensures
        group_entries(after, n + 1) == group_entries(before, n) + after[n].1,
{
    lemma_group_entries_prefix(before, after, n);
}

proof fn lemma_group_entries_prefix(
    before: Seq<(u32, Seq<(ResolvedImageDescriptor, i32)>)>,
    after: Seq<(u32, Seq<(ResolvedImageDescriptor, i32)>)>,
    m: int,
)
    requires
        0 <= m <= before.len(),
        before.len() < after.len(),
        forall|k: int| 0 <= k < before.len() ==> #[trigger] after[k] == before[k],
    ensures
        group_entries(after, m) == group_entries(before, m),
    decreases m,
{
    if m > 0 {
        lemma_group_entries_prefix(before, after, m - 1);
    }
}

/// A run of push-constant bytes after `bytes` are written over it at `offset`, as where it
/// starts and what it holds; see [`PushConstants::write`].
pub open spec fn written_spec(start: int, data: Seq<u8>, offset: int, bytes: Seq<u8>) -> (int, Seq<u8>) {
    if data.len() == 0 {
        (offset, bytes)
    } else {
        let lo = min_int(start, offset);
        let hi = max_int(start + data.len(), offset + bytes.len());
        (lo, Seq::new((hi - lo) as nat, |i: int| merged_byte(start, data, offset, bytes, lo + i)))
    }
}

/// The push constants of a draw or dispatch once what the module reads when it runs is in
/// place: for each source in turn, the bytes of a variable written where it was pushed (they
/// have to be as many as were declared), a device address written over the eight bytes at its
/// offset (which have to lie in the run; one before the run is left out).
pub open spec fn resolved_push_spec(
    start: int,
    data: Seq<u8>,
    sources: Seq<PushSource>,
    resolved: Seq<Seq<u8>>,
    n: int,
) -> Result<(int, Seq<u8>), ExecError>
    decreases n,
{
    if n <= 0 {
        Ok((start, data))
    } else {
        match resolved_push_spec(start, data, sources, resolved, n - 1) {
            Err(e) => Err(e),
            Ok((s, d)) => match sources[n - 1] {
                PushSource::Variable { offset, size, .. } => if resolved[n - 1].len() != size || offset + size
                    > u32::MAX {
                    Err(ExecError::PushConstantsMismatch)
                } else {
                    Ok(written_spec(s, d, offset as int, resolved[n - 1]))
                },
                PushSource::Address { offset, .. } => if resolved[n - 1].len() != 8 {
                    Err(ExecError::PushConstantsMismatch)
                } else if offset < s {
                    Ok((s, d))
                } else if offset - s + 8 > d.len() {
                    Err(ExecError::PushConstantsMismatch)
                } else {
                    let head = offset - s;
                    Ok((s, Seq::new(d.len(), |i: int| if head <= i < head + 8 { resolved[n - 1][i - head] } else { d[i] })))
                },
            },
        }
    }
}

/// Puts what the module reads when it runs in place in `push`, `resolved[k]` being the bytes
/// `sources[k]` names: a variable's bytes, or the eight bytes of a buffer's device address.
pub fn resolve_push_constants(push: &PushConstants, sources: &Vec<PushSource>, resolved: &Vec<Vec<u8>>) -> (r: Result<
    PushConstants,
    ExecError,
>)
    requires
        push.wf(),
        resolved@.len() == sources@.len(),
    ensures
        match r {
            Ok(p) => resolved_push_spec(
                push.offset as int,
                push.data@,
                sources@,
                resolved@.map_values(|b: Vec<u8>| b@),
                sources@.len() as int,
            ) == Ok::<(int, Seq<u8>), ExecError>((p.offset as int, p.data@)),
            Err(e) => resolved_push_spec(
                push.offset as int,
                push.data@,
                sources@,
                resolved@.map_values(|b: Vec<u8>| b@),
                sources@.len() as int,
            ) == Err::<(int, Seq<u8>), ExecError>(e),
        },
{
    let ghost views = resolved@.map_values(|b: Vec<u8>| b@);
    let mut current = push.copy();
    let mut k: usize = 0;
    while k < sources.len()
        invariant
            k <= sources@.len(),
            resolved@.len() == sources@.len(),
            views == resolved@.map_values(|b: Vec<u8>| b@),
            current.wf(),
            resolved_push_spec(push.offset as int, push.data@, sources@, views, k as int) == Ok::<(int, Seq<u8>), ExecError>(
                (current.offset as int, current.data@),
            ),
        decreases sources@.len() - k,
    {
        let bytes = &resolved[k];
        assert(views[k as int] == bytes@);
        match sources[k] {
            PushSource::Variable { offset, size, .. } => {
                if bytes.len() != size as usize || offset as u64 + size as u64 > u32::MAX as u64 {
                    proof {
                        lemma_push_fails(push.offset as int, push.data@, sources@, views, k as int + 1);
                    }
                    return Err(ExecError::PushConstantsMismatch);
                }
                let ghost (s0, d0) = (current.offset as int, current.data@);
                current.write(offset, bytes.as_slice());
                proof {
                    let w = written_spec(s0, d0, offset as int, bytes@);
                    if d0.len() != 0 {
                        assert(current.data@ =~= w.1);
                    }
                    assert(w == (current.offset as int, current.data@));
                    assert(resolved_push_spec(push.offset as int, push.data@, sources@, views, k + 1) == Ok::<
                        (int, Seq<u8>),
                        ExecError,
                    >((current.offset as int, current.data@)));
                }
            },
            PushSource::Address { offset, .. } => {
                if bytes.len() != 8 {
                    proof {
                        lemma_push_fails(push.offset as int, push.data@, sources@, views, k as int + 1);
                    }
                    return Err(ExecError::PushConstantsMismatch);
                }
                if offset >= current.offset {
                    let head = (offset - current.offset) as usize;
                    if head > current.data.len() || current.data.len() - head < 8 {
                        proof {
                            lemma_push_fails(push.offset as int, push.data@, sources@, views, k as int + 1);
                        }
                        return Err(ExecError::PushConstantsMismatch);
                    }
                    let ghost d0 = current.data@;
                    let ghost s0 = current.offset;
                    let mut j: usize = 0;
                    while j < 8
                        invariant
                            j <= 8,
                            bytes@.len() == 8,
                            head + 8 <= d0.len(),
                            current.data@.len() == d0.len(),
                            current.offset == s0,
                            current.wf(),
                            forall|i: int|
                                0 <= i < d0.len() ==> #[trigger] current.data@[i] == if head <= i < head + j {
                                    bytes@[i - head]
                                } else {
                                    d0[i]
                                },
                        decreases 8 - j,
                    {
                        current.data.set(head + j, bytes[j]);
                        j = j + 1;
                    }
                    proof {
                        let expected = Seq::new(d0.len(), |i: int| if head <= i < head + 8 { bytes@[i - head] } else { d0[i] });
                        assert(current.data@ =~= expected);
                        assert(resolved_push_spec(push.offset as int, push.data@, sources@, views, k + 1) == Ok::<
                            (int, Seq<u8>),
                            ExecError,
                        >((current.offset as int, current.data@)));
                    }
                }
            },
        }
        k = k + 1;
    }
    Ok(current)
}

/// Once resolving fails, it fails with the same error however many sources follow.
proof fn lemma_push_fails(start: int, data: Seq<u8>, sources: Seq<PushSource>, resolved: Seq<Seq<u8>>, n: int)
    requires
        0 <= n <= sources.len(),
        resolved_push_spec(start, data, sources, resolved, n) is Err,
    ensures
        resolved_push_spec(start, data, sources, resolved, sources.len() as int) == resolved_push_spec(
            start,
            data,
            sources,
            resolved,
            n,
        ),
    decreases sources.len() - n,
{
    if n < sources.len() {
        lemma_push_fails(start, data, sources, resolved, n + 1);
    }
}

/// What a run holds for each value, by id: nothing until an instruction or a variable gives
/// the value one.
pub struct Values {
    pub slots: Vec<Value>,
}

impl Values {
    /// What `id` holds.
    pub open spec fn at(&self, id: ValueId) -> Value {
        if (id.0 as int) < self.slots@.len() {
            self.slots@[id.0 as int]
        } else {
            Value::Nothing
        }
    }

    /// Where `id` leads after following at most `fuel` references.
    pub open spec fn followed(&self, id: ValueId, fuel: nat) -> ValueId
        decreases fuel,
    {
        if fuel == 0 {
            id
        } else {
            match self.at(id) {
                Value::Reference(next) => self.followed(next, (fuel - 1) as nat),
                _ => id,
            }
        }
    }

    /// What `id` stands for: the value it refers to, through references, where it is one.
    pub open spec fn target(&self, id: ValueId) -> ValueId {
        self.followed(id, self.slots@.len())
    }

    /// The elements of the array `id` stands for, if it stands for one.
    pub open spec fn elements_of(&self, id: ValueId) -> Option<Seq<ValueId>> {
        match self.at(self.target(id)) {
            Value::Slice(elements) => Some(elements@),
            _ => None,
        }
    }

    /// The number `id` stands for, if it stands for a `u32`.
    pub open spec fn u32_of(&self, id: ValueId) -> Option<u32> {
        match self.at(self.target(id)) {
            Value::U32(n) => Some(n),
            _ => None,
        }
    }

    /// A store that holds nothing.
    pub fn new() -> (r: Values)
        ensures
            forall|id: ValueId| #[trigger] r.at(id) == Value::Nothing,
    {
        Values { slots: Vec::new() }
    }

    /// Gives `id` the value `value`, leaving every other value as it was.
    pub fn set(&mut self, id: ValueId, value: Value)
        ensures
            final(self).at(id) == value,
            forall|other: ValueId| other != id ==> #[trigger] final(self).at(other) == old(self).at(other),
    {
        let index = id.0 as usize;
        while self.slots.len() <= index
            invariant
                forall|other: ValueId| #[trigger] self.at(other) == old(self).at(other),
            decreases index + 1 - self.slots@.len(),
        {
            let ghost before = *self;
            self.slots.push(Value::Nothing);
            proof {
                assert forall|other: ValueId| #[trigger] self.at(other) == old(self).at(other) by {
                    assert(before.at(other) == old(self).at(other));
                    if (other.0 as int) < before.slots@.len() {
                        assert(self.slots@[other.0 as int] == before.slots@[other.0 as int]);
                    }
                }
            }
        }
        let ghost before = *self;
        self.slots.set(index, value);
        proof {
            assert forall|other: ValueId| other != id implies #[trigger] self.at(other) == old(self).at(other) by {
                assert(before.at(other) == old(self).at(other));
                if (other.0 as int) < self.slots@.len() {
                    assert(other.0 != id.0);
                }
            }
        }
    }

    /// What `id` stands for, following its references.
    pub fn target_of(&self, id: ValueId) -> (r: ValueId)
        ensures
            r == self.target(id),
    {
        let mut current = id;
        let mut steps: usize = 0;
        let limit = self.slots.len();
        while steps < limit
            invariant
                steps <= limit,
                limit == self.slots@.len(),
                self.followed(current, (limit - steps) as nat) == self.target(id),
            decreases limit - steps,
        {
            let index = current.0 as usize;
            if index >= self.slots.len() {
                return current;
            }
            match &self.slots[index] {
                Value::Reference(next) => {
                    current = *next;
                },
                _ => {
                    return current;
                },
            }
            steps = steps + 1;
        }
        current
    }

    /// The elements of the array `id` stands for, if it stands for one.
    pub fn elements(&self, id: ValueId) -> (r: Option<&Vec<ValueId>>)
        ensures
            match r {
                Some(e) => self.elements_of(id) == Some(e@),
                None => self.elements_of(id) is None,
            },
    {
        let index = self.target_of(id).0 as usize;
        if index >= self.slots.len() {
            return None;
        }
        match &self.slots[index] {
            Value::Slice(elements) => Some(elements),
            _ => None,
        }
    }

    /// The number `id` stands for, if it stands for a `u32`.
    pub fn number(&self, id: ValueId) -> (r: Option<u32>)
        ensures
            r == self.u32_of(id),
    {
        let index = self.target_of(id).0 as usize;
        if index >= self.slots.len() {
            return None;
        }
        match &self.slots[index] {
            Value::U32(n) => Some(*n),
            _ => None,
        }
    }

    /// Gives the instruction `id` the value `ir` computes when a run reaches it: a constant its
    /// value, an array its elements, an index a reference to the element it picks. An index past
    /// the end of its array fails the run. A string constant is read where it is used, and
    /// every other instruction holds what running its command gives it, so neither changes
    /// anything here.
    pub fn evaluate(&mut self, id: ValueId, ir: &IR) -> (r: Result<(), ExecError>)
        requires
            *ir matches IR::Index { array, index } ==> old(self).elements_of(array) is Some && old(self).u32_of(
                index,
            ) is Some,
        ensures
            match *ir {
                IR::Constant(Constant::I32(v)) => r is Ok && final(self).at(id) == Value::I32(v),
                IR::Constant(Constant::U32(v)) => r is Ok && final(self).at(id) == Value::U32(v),
                IR::Constant(Constant::Size(v)) => r is Ok && final(self).at(id) == Value::Size(v),
                IR::Constant(Constant::Extent2D(v)) => r is Ok && final(self).at(id) == Value::Extent2D(v),
                IR::Constant(Constant::Extent3D(v)) => r is Ok && final(self).at(id) == Value::Extent3D(v),
                IR::Constant(Constant::Access(v)) => r is Ok && final(self).at(id) == Value::Access(v),
                IR::Constant(Constant::ClearValue(v)) => r is Ok && final(self).at(id) == Value::ClearValue(v),
                IR::Array { elements, .. } => r is Ok && (final(self).at(id) matches Value::Slice(e) && e@ == elements@),
                IR::Index { array, index } => {
                    let elements = old(self).elements_of(array)->0;
                    let i = old(self).u32_of(index)->0;
                    &&& r is Err <==> i >= elements.len()
                    &&& r is Err ==> r == Err::<(), ExecError>(ExecError::IndexOutOfRange)
                    &&& r is Ok ==> final(self).at(id) == Value::Reference(elements[i as int])
                },
                _ => r is Ok && final(self).slots@ == old(self).slots@,
            },
            match *ir {
                IR::Constant(Constant::String(_)) => true,
                IR::Constant(_) | IR::Array { .. } | IR::Index { .. } => forall|other: ValueId|
                    other != id ==> #[trigger] final(self).at(other) == old(self).at(other),
                _ => true,
            },
    {
        match ir {
            IR::Constant(c) => {
                let value = match c {
                    Constant::I32(v) => Value::I32(*v),
                    Constant::U32(v) => Value::U32(*v),
                    Constant::Size(v) => Value::Size(*v),
                    Constant::Extent2D(v) => Value::Extent2D(*v),
                    Constant::Extent3D(v) => Value::Extent3D(*v),
                    Constant::Access(v) => Value::Access(*v),
                    Constant::ClearValue(v) => Value::ClearValue(*v),
                    Constant::String(_) => return Ok(()),
                };
                self.set(id, value);
                Ok(())
            },
            IR::Array { elements, .. } => {
                let mut copy: Vec<ValueId> = Vec::new();
                let mut k: usize = 0;
                while k < elements.len()
                    invariant
                        k <= elements@.len(),
                        copy@ == elements@.take(k as int),
                    decreases elements@.len() - k,
                {
                    copy.push(elements[k]);
                    k = k + 1;
                    proof {
                        assert(copy@ =~= elements@.take(k as int));
                    }
                }
                proof {
                    assert(copy@ =~= elements@);
                }
                self.set(id, Value::Slice(copy));
                Ok(())
            },
            IR::Index { array, index } => {
                let i = match self.number(*index) {
                    Some(i) => i,
                    None => return Ok(()),
                };
                let element = match self.elements(*array) {
                    Some(elements) => {
                        if (i as usize) < elements.len() {
                            elements[i as usize]
                        } else {
                            return Err(ExecError::IndexOutOfRange);
                        }
                    },
                    None => return Ok(()),
                };
                self.set(id, Value::Reference(element));
                Ok(())
            },
            _ => Ok(()),
        }
    }
}

} // verus!
