use vstd::prelude::*;

use crate::access::{
    Access, ACCESS_BLIT_READ, ACCESS_BLIT_WRITE, ACCESS_CLEAR, ACCESS_COPY_READ, ACCESS_COPY_WRITE,
    ACCESS_ATTRIBUTE_READ, ACCESS_HOST_WRITE, ACCESS_INDEX_READ, ACCESS_INDIRECT_READ, ACCESS_WRITES, LAYOUT_UNDEFINED,
    layout_of,
};
use crate::compile::CompileError;
use crate::ids::{LabelId, ValueId};
use crate::ir::{Constant, DispatchSize, IR, MAX_RESOLVE_DEPTH, ResourceSideEffect, resource_effects_spec};
use crate::module::{is_buffer, resource_root, root_spec};

verus! {

/// Instructions recorded before `base` was the next free id.
pub open spec fn recorded_before(base: u32) -> spec_fn((ValueId, IR)) -> bool {
    |x: (ValueId, IR)| x.0.0 < base
}

/// What synchronization adds to a program: access constants and barriers.
pub open spec fn is_sync_instruction(ir: IR) -> bool {
    ||| ir matches IR::Constant(Constant::Access(_))
    ||| ir is MemoryBarrier
    ||| ir is ImageBarrier
}

/// `new` is `old` with only synchronization instructions added at its end.
pub open spec fn appended_sync(old: Seq<(ValueId, IR)>, new: Seq<(ValueId, IR)>) -> bool {
    &&& old.len() <= new.len()
    &&& forall|k: int| 0 <= k < old.len() ==> #[trigger] new[k] == old[k]
    &&& forall|k: int| old.len() <= k < new.len() ==> is_sync_instruction(#[trigger] new[k].1)
}

/// The image an instruction writes through a clear, a blit or a copy, and the access it
/// writes it at.
pub open spec fn image_write(ir: IR) -> Option<(ValueId, u32)> {
    match ir {
        IR::Clear { attachment, .. } => Some((attachment, ACCESS_CLEAR)),
        IR::Blit { dst, .. } => Some((dst, ACCESS_BLIT_WRITE)),
        IR::CopyBufferToImage { image, .. } => Some((image, ACCESS_COPY_WRITE)),
        _ => None,
    }
}

/// The image a clear, blit or copy writes.
pub open spec fn written_image(ir: IR) -> ValueId {
    match image_write(ir) {
        Some(t) => t.0,
        None => ValueId(0),
    }
}

/// The access a clear, blit or copy writes its image at.
pub open spec fn written_bits(ir: IR) -> u32 {
    match image_write(ir) {
        Some(t) => t.1,
        None => 0,
    }
}

/// `ir` is an image barrier that brings `image` into the layout a use at `bits` needs.
pub open spec fn barrier_into(ir: IR, image: ValueId, bits: u32) -> bool {
    ir matches IR::ImageBarrier { value, new_layout, .. } && value == image && new_layout == layout_of(bits)
}

/// Every clear, blit and copy into an image in `s` comes after an image barrier that brings
/// that image into the layout the write needs.
pub open spec fn writes_prepared(s: Seq<(ValueId, IR)>) -> bool {
    forall|p: int|
        0 <= p < s.len() && (#[trigger] image_write(s[p].1)) is Some ==> exists|q: int|
            0 <= q < p && barrier_into(#[trigger] s[q].1, written_image(s[p].1), written_bits(s[p].1))
}

/// A clear, blit or copy into an image, or an image barrier: what the order of writes after
/// their barriers is made of.
pub open spec fn orders_writes(ir: IR) -> bool {
    image_write(ir) is Some || ir is ImageBarrier
}

/// A prefix of a prepared program is prepared.
pub proof fn lemma_prepared_drop_last(s: Seq<(ValueId, IR)>)
    requires
        writes_prepared(s),
        s.len() > 0,
    ensures
        writes_prepared(s.drop_last()),
{
    let t = s.drop_last();
    assert forall|p: int| 0 <= p < t.len() && (#[trigger] image_write(t[p].1)) is Some implies exists|q: int|
        0 <= q < p && barrier_into(#[trigger] t[q].1, written_image(t[p].1), written_bits(t[p].1)) by {
        assert(t[p] == s[p]);
        assert(image_write(s[p].1) is Some);
        let q = choose|q: int| 0 <= q < p && barrier_into(#[trigger] s[q].1, written_image(s[p].1), written_bits(s[p].1));
        assert(t[q] == s[q]);
    }
}

/// Keeping every write and image barrier of a prepared program, in order, keeps it prepared.
pub proof fn lemma_prepared_filter(s: Seq<(ValueId, IR)>, f: spec_fn((ValueId, IR)) -> bool)
    requires
        writes_prepared(s),
        forall|k: int| 0 <= k < s.len() && orders_writes((#[trigger] s[k]).1) ==> f(s[k]),
    ensures
        writes_prepared(s.filter(f)),
    decreases s.len(),
{
    reveal_with_fuel(Seq::filter, 1);
    if s.len() > 0 {
        let t = s.drop_last();
        let x = s.last();
        lemma_prepared_drop_last(s);
        assert forall|k: int| 0 <= k < t.len() && orders_writes((#[trigger] t[k]).1) implies f(t[k]) by {
            assert(t[k] == s[k]);
        }
        lemma_prepared_filter(t, f);
        assert(s =~= t.push(x));
        lemma_filter_push(t, x, f);
        if f(x) {
            if image_write(x.1) is Some {
                let p = s.len() - 1;
                assert(image_write(s[p].1) is Some);
                let q = choose|q: int| 0 <= q < p && barrier_into(#[trigger] s[q].1, written_image(s[p].1), written_bits(s[p].1));
                assert(t[q] == s[q]);
                assert(f(t[q]));
                t.lemma_filter_contains(f, q);
                let fl = t.filter(f);
                let j = choose|j: int| 0 <= j < fl.len() && fl[j] == t[q];
                assert(barrier_into(fl[j].1, written_image(x.1), written_bits(x.1)));
            }
            lemma_prepared_push(t.filter(f), x);
        }
    }
}

/// A program whose writes and image barriers, taken in order, are prepared is prepared.
pub proof fn lemma_prepared_unfilter(s: Seq<(ValueId, IR)>, f: spec_fn((ValueId, IR)) -> bool)
    requires
        writes_prepared(s.filter(f)),
        forall|k: int| 0 <= k < s.len() && orders_writes((#[trigger] s[k]).1) ==> f(s[k]),
    ensures
        writes_prepared(s),
    decreases s.len(),
{
    reveal_with_fuel(Seq::filter, 1);
    if s.len() > 0 {
        let t = s.drop_last();
        let x = s.last();
        assert(s =~= t.push(x));
        lemma_filter_push(t, x, f);
        if f(x) {
            lemma_prepared_drop_last(s.filter(f));
            assert(s.filter(f).drop_last() =~= t.filter(f));
        }
        assert forall|k: int| 0 <= k < t.len() && orders_writes((#[trigger] t[k]).1) implies f(t[k]) by {
            assert(t[k] == s[k]);
        }
        lemma_prepared_unfilter(t, f);
        if image_write(x.1) is Some {
            assert(f(s[s.len() - 1]));
            let fl = s.filter(f);
            let p = fl.len() - 1;
            assert(fl[p] == x);
            assert(image_write(fl[p].1) is Some);
            let q = choose|q: int| 0 <= q < p && barrier_into(#[trigger] fl[q].1, written_image(fl[p].1), written_bits(fl[p].1));
            let tf = t.filter(f);
            assert(tf[q] == fl[q]);
            assert(tf.contains(fl[q]));
            t.lemma_filter_contains_rev(f, fl[q]);
            let j = choose|j: int| 0 <= j < t.len() && t[j] == fl[q];
            assert(barrier_into(t[j].1, written_image(x.1), written_bits(x.1)));
        }
        lemma_prepared_push(t, x);
    }
}

/// Instructions that neither write an image nor carry an image barrier can stand before a
/// prepared program.
pub proof fn lemma_prepared_after(a: Seq<(ValueId, IR)>, b: Seq<(ValueId, IR)>)
    requires
        writes_prepared(b),
        forall|k: int| 0 <= k < a.len() ==> !orders_writes((#[trigger] a[k]).1),
    ensures
        writes_prepared(a + b),
{
    let s = a + b;
    assert forall|p: int| 0 <= p < s.len() && (#[trigger] image_write(s[p].1)) is Some implies exists|q: int|
        0 <= q < p && barrier_into(#[trigger] s[q].1, written_image(s[p].1), written_bits(s[p].1)) by {
        if p < a.len() {
            assert(s[p] == a[p]);
            assert(!orders_writes(a[p].1));
        } else {
            let pb = p - a.len();
            assert(s[p] == b[pb]);
            assert(image_write(b[pb].1) is Some);
            let q = choose|q: int| 0 <= q < pb && barrier_into(#[trigger] b[q].1, written_image(b[pb].1), written_bits(b[pb].1));
            assert(s[q + a.len()] == b[q]);
        }
    }
}

/// A program that holds the same writes and image barriers at the same places as a prepared
/// one is prepared.
pub proof fn lemma_prepared_pointwise(a: Seq<(ValueId, IR)>, b: Seq<(ValueId, IR)>)
    requires
        writes_prepared(a),
        a.len() == b.len(),
        forall|k: int| 0 <= k < a.len() && (orders_writes(a[k].1) || orders_writes((#[trigger] b[k]).1)) ==> b[k].1 == a[k].1,
    ensures
        writes_prepared(b),
{
    assert forall|p: int| 0 <= p < b.len() && (#[trigger] image_write(b[p].1)) is Some implies exists|q: int|
        0 <= q < p && barrier_into(#[trigger] b[q].1, written_image(b[p].1), written_bits(b[p].1)) by {
        assert(orders_writes(b[p].1));
        assert(b[p].1 == a[p].1);
        assert(image_write(a[p].1) is Some);
        let q = choose|q: int| 0 <= q < p && barrier_into(#[trigger] a[q].1, written_image(a[p].1), written_bits(a[p].1));
        assert(orders_writes(a[q].1));
        assert(b[q].1 == a[q].1);
    }
}

/// A write always waits on a barrier of its own, never joining reads.
proof fn lemma_write_transition(mid: Seq<(ValueId, IR)>, after: Seq<(ValueId, IR)>, image: ValueId, bits: u32)
    requires
        bits == ACCESS_CLEAR || bits == ACCESS_BLIT_WRITE || bits == ACCESS_COPY_WRITE,
        after.len() == mid.len() + 1,
        after.last().1 matches IR::ImageBarrier { value, new_layout, .. } && value == image && new_layout == layout_of(bits),
    ensures
        barrier_into(after[mid.len() as int].1, image, bits),
{
}

proof fn lemma_prepared_appended(old: Seq<(ValueId, IR)>, new: Seq<(ValueId, IR)>)
    requires
        writes_prepared(old),
        appended_sync(old, new),
    ensures
        writes_prepared(new),
{
    assert forall|p: int| 0 <= p < new.len() && (#[trigger] image_write(new[p].1)) is Some implies exists|q: int|
        0 <= q < p && barrier_into(#[trigger] new[q].1, written_image(new[p].1), written_bits(new[p].1)) by {
        if p < old.len() {
            assert(new[p] == old[p]);
            assert(image_write(old[p].1) is Some);
            let q = choose|q: int|
                0 <= q < p && barrier_into(#[trigger] old[q].1, written_image(old[p].1), written_bits(old[p].1));
            assert(new[q] == old[q]);
        } else {
            assert(is_sync_instruction(new[p].1));
        }
    }
}

proof fn lemma_prepared_push(old: Seq<(ValueId, IR)>, x: (ValueId, IR))
    requires
        writes_prepared(old),
        image_write(x.1) matches Some(t) ==> exists|q: int| 0 <= q < old.len() && barrier_into(#[trigger] old[q].1, t.0, t.1),
    ensures
        writes_prepared(old.push(x)),
{
    let new = old.push(x);
    assert forall|p: int| 0 <= p < new.len() && (#[trigger] image_write(new[p].1)) is Some implies exists|q: int|
        0 <= q < p && barrier_into(#[trigger] new[q].1, written_image(new[p].1), written_bits(new[p].1)) by {
        if p < old.len() {
            assert(new[p] == old[p]);
            assert(image_write(old[p].1) is Some);
            let q = choose|q: int|
                0 <= q < p && barrier_into(#[trigger] old[q].1, written_image(old[p].1), written_bits(old[p].1));
            assert(new[q] == old[q]);
        } else {
            let t = image_write(x.1)->0;
            let q = choose|q: int| 0 <= q < old.len() && barrier_into(#[trigger] old[q].1, t.0, t.1);
            assert(new[q] == old[q]);
        }
    }
}

proof fn lemma_prepared_insert(old: Seq<(ValueId, IR)>, at: int, x: (ValueId, IR))
    requires
        writes_prepared(old),
        0 <= at <= old.len(),
        is_sync_instruction(x.1),
    ensures
        writes_prepared(old.insert(at, x)),
{
    let new = old.insert(at, x);
    assert forall|p: int| 0 <= p < new.len() && (#[trigger] image_write(new[p].1)) is Some implies exists|q: int|
        0 <= q < p && barrier_into(#[trigger] new[q].1, written_image(new[p].1), written_bits(new[p].1)) by {
        if p < at {
            assert(new[p] == old[p]);
            assert(image_write(old[p].1) is Some);
            let q = choose|q: int|
                0 <= q < p && barrier_into(#[trigger] old[q].1, written_image(old[p].1), written_bits(old[p].1));
            assert(new[q] == old[q]);
        } else if p == at {
            assert(new[p] == x);
        } else {
            assert(new[p] == old[p - 1]);
            assert(image_write(old[p - 1].1) is Some);
            let q = choose|q: int|
                0 <= q < p - 1 && barrier_into(#[trigger] old[q].1, written_image(old[p - 1].1), written_bits(
                    old[p - 1].1,
                ));
            if q < at {
                assert(new[q] == old[q]);
            } else {
                assert(new[q + 1] == old[q]);
            }
        }
    }
}

/// `out` is `nodes` with only synchronization instructions added, each under an id of its own
/// from `base` on.
pub open spec fn only_sync_added(nodes: Seq<(ValueId, IR)>, out: Seq<(ValueId, IR)>, base: u32) -> bool {
    &&& out.filter(recorded_before(base)) == nodes
    &&& forall|k: int| 0 <= k < out.len() && (#[trigger] out[k]).0.0 >= base ==> is_sync_instruction(out[k].1)
}

pub proof fn lemma_filter_push<A>(s: Seq<A>, x: A, p: spec_fn(A) -> bool)
    ensures
        s.push(x).filter(p) == if p(x) { s.filter(p).push(x) } else { s.filter(p) },
{
    reveal_with_fuel(Seq::filter, 1);
    assert(s.push(x).drop_last() =~= s);
}

pub proof fn lemma_filter_insert_dropped<A>(s: Seq<A>, i: int, x: A, p: spec_fn(A) -> bool)
    requires
        0 <= i <= s.len(),
        !p(x),
    ensures
        s.insert(i, x).filter(p) == s.filter(p),
{
    let front = s.subrange(0, i);
    let back = s.subrange(i, s.len() as int);
    assert(s =~= front + back);
    assert(s.insert(i, x) =~= front.push(x) + back);
    Seq::filter_distributes_over_add(front, back, p);
    Seq::filter_distributes_over_add(front.push(x), back, p);
    lemma_filter_push(front, x, p);
}

/// Where an image stands: the layout it rests in, the access constant its last use made it
/// wait on, and the accesses it has been reached at since it last moved.
#[derive(Debug, Clone, Copy, PartialEq, Eq, Structural)]
pub struct ImageState {
    pub layout: i32,
    pub last_access: ValueId,
    pub access: u32,
}

/// Where a buffer stands: the access constant its last use made it wait on and that access.
#[derive(Debug, Clone, Copy, PartialEq, Eq, Structural)]
pub struct BufferState {
    pub last_access: ValueId,
    pub access: u32,
}

/// The state a selection was entered with and what each arm ended in, with where in the
/// output each arm ended.
pub struct Construct {
    pub merge: LabelId,
    pub entry_images: Vec<(ValueId, ImageState)>,
    pub entry_buffers: Vec<(ValueId, BufferState)>,
    pub arms: Vec<Arm>,
}

pub struct Arm {
    pub at: usize,
    pub images: Vec<(ValueId, ImageState)>,
    pub buffers: Vec<(ValueId, BufferState)>,
}

fn copy_images(v: &Vec<(ValueId, ImageState)>) -> (r: Vec<(ValueId, ImageState)>)
    ensures
        r@ == v@,
{
    let mut r: Vec<(ValueId, ImageState)> = Vec::with_capacity(v.len());
    let mut i: usize = 0;
    while i < v.len()
        invariant
            i <= v@.len(),
            r@ == v@.subrange(0, i as int),
        decreases v@.len() - i,
    {
        r.push(v[i]);
        i = i + 1;
    }
    r
}

fn copy_buffers(v: &Vec<(ValueId, BufferState)>) -> (r: Vec<(ValueId, BufferState)>)
    ensures
        r@ == v@,
{
    let mut r: Vec<(ValueId, BufferState)> = Vec::with_capacity(v.len());
    let mut i: usize = 0;
    while i < v.len()
        invariant
            i <= v@.len(),
            r@ == v@.subrange(0, i as int),
        decreases v@.len() - i,
    {
        r.push(v[i]);
        i = i + 1;
    }
    r
}

/// The state `list` records for `key`, the first entry for it.
pub open spec fn lookup<T>(list: Seq<(ValueId, T)>, key: ValueId) -> Option<T>
    decreases list.len(),
{
    if list.len() == 0 {
        None
    } else {
        match lookup(list.drop_last(), key) {
            Some(v) => Some(v),
            None => if list.last().0 == key { Some(list.last().1) } else { None },
        }
    }
}

proof fn lemma_lookup_prefix<T>(list: Seq<(ValueId, T)>, n: int, key: ValueId)
    requires
        0 <= n <= list.len(),
        lookup(list.subrange(0, n), key) is Some,
    ensures
        lookup(list, key) == lookup(list.subrange(0, n), key),
    decreases list.len() - n,
{
    if n < list.len() {
        assert(list.subrange(0, n + 1).drop_last() =~= list.subrange(0, n));
        lemma_lookup_prefix(list, n + 1, key);
    } else {
        assert(list.subrange(0, n) =~= list);
    }
}

fn find_image(list: &Vec<(ValueId, ImageState)>, key: ValueId) -> (r: Option<ImageState>)
    ensures
        r == lookup(list@, key),
{
    let mut i: usize = 0;
    while i < list.len()
        invariant
            i <= list@.len(),
            lookup(list@.subrange(0, i as int), key) is None,
        decreases list@.len() - i,
    {
        assert(list@.subrange(0, i + 1).drop_last() =~= list@.subrange(0, i as int));
        if list[i].0 == key {
            proof {
                lemma_lookup_prefix(list@, i + 1, key);
            }
            return Some(list[i].1);
        }
        i = i + 1;
    }
    assert(list@.subrange(0, list@.len() as int) =~= list@);
    None
}

fn find_buffer(list: &Vec<(ValueId, BufferState)>, key: ValueId) -> (r: Option<BufferState>)
    ensures
        r == lookup(list@, key),
{
    let mut i: usize = 0;
    while i < list.len()
        invariant
            i <= list@.len(),
            lookup(list@.subrange(0, i as int), key) is None,
        decreases list@.len() - i,
    {
        assert(list@.subrange(0, i + 1).drop_last() =~= list@.subrange(0, i as int));
        if list[i].0 == key {
            proof {
                lemma_lookup_prefix(list@, i + 1, key);
            }
            return Some(list[i].1);
        }
        i = i + 1;
    }
    assert(list@.subrange(0, list@.len() as int) =~= list@);
    None
}

/// `list` with `key` now at `value`: its entry replaced where it has one, appended where not.
pub open spec fn stored<T>(list: Seq<(ValueId, T)>, key: ValueId, value: T) -> Seq<(ValueId, T)> {
    if exists|i: int| 0 <= i < list.len() && (#[trigger] list[i]).0 == key {
        list.update(choose|i: int| 0 <= i < list.len() && (#[trigger] list[i]).0 == key, (key, value))
    } else {
        list.push((key, value))
    }
}

/// No entry of `list` is for `key`.
proof fn lemma_lookup_absent<T>(list: Seq<(ValueId, T)>, key: ValueId)
    requires
        forall|j: int| 0 <= j < list.len() ==> (#[trigger] list[j]).0 != key,
    ensures
        lookup(list, key) is None,
    decreases list.len(),
{
    if list.len() > 0 {
        lemma_lookup_absent(list.drop_last(), key);
    }
}

/// Replacing the first entry for `key` changes what `list` records for `key` alone.
proof fn lemma_lookup_replaced<T>(list: Seq<(ValueId, T)>, i: int, key: ValueId, value: T, other: ValueId)
    requires
        0 <= i < list.len(),
        list[i].0 == key,
        forall|j: int| 0 <= j < i ==> (#[trigger] list[j]).0 != key,
    ensures
        lookup(list.update(i, (key, value)), key) == Some(value),
        other != key ==> lookup(list.update(i, (key, value)), other) == lookup(list, other),
    decreases list.len(),
{
    let updated = list.update(i, (key, value));
    if i == list.len() - 1 {
        assert(updated.drop_last() =~= list.drop_last());
        lemma_lookup_absent(list.drop_last(), key);
    } else {
        assert(updated.drop_last() =~= list.drop_last().update(i, (key, value)));
        lemma_lookup_replaced(list.drop_last(), i, key, value, other);
    }
}

/// Appending an entry for a key `list` has none for changes what it records for that key alone.
proof fn lemma_lookup_appended<T>(list: Seq<(ValueId, T)>, key: ValueId, value: T, other: ValueId)
    requires
        forall|j: int| 0 <= j < list.len() ==> (#[trigger] list[j]).0 != key,
    ensures
        lookup(list.push((key, value)), key) == Some(value),
        other != key ==> lookup(list.push((key, value)), other) == lookup(list, other),
{
    assert(list.push((key, value)).drop_last() =~= list);
    lemma_lookup_absent(list, key);
}

/// `list` with `key` now at `value` and every other key where it was.
fn store_image(list: &mut Vec<(ValueId, ImageState)>, key: ValueId, value: ImageState)
    ensures
        final(list)@.len() <= old(list)@.len() + 1,
        exists|i: int| 0 <= i < final(list)@.len() && #[trigger] final(list)@[i] == (key, value),
        lookup(final(list)@, key) == Some(value),
        forall|other: ValueId| other != key ==> #[trigger] lookup(final(list)@, other) == lookup(old(list)@, other),
{
    let mut i: usize = 0;
    while i < list.len()
        invariant
            i <= list@.len(),
            list@ == old(list)@,
            forall|j: int| 0 <= j < i ==> (#[trigger] list@[j]).0 != key,
        decreases list@.len() - i,
    {
        if list[i].0 == key {
            list.set(i, (key, value));
            assert(list@[i as int] == (key, value));
            proof {
                assert forall|other: ValueId| other != key implies #[trigger] lookup(list@, other) == lookup(old(list)@, other) by {
                    lemma_lookup_replaced(old(list)@, i as int, key, value, other);
                }
                lemma_lookup_replaced(old(list)@, i as int, key, value, key);
            }
            return;
        }
        i = i + 1;
    }
    list.push((key, value));
    assert(list@[list@.len() - 1] == (key, value));
    proof {
        assert forall|other: ValueId| other != key implies #[trigger] lookup(list@, other) == lookup(old(list)@, other) by {
            lemma_lookup_appended(old(list)@, key, value, other);
        }
        lemma_lookup_appended(old(list)@, key, value, key);
    }
}

fn store_buffer(list: &mut Vec<(ValueId, BufferState)>, key: ValueId, value: BufferState)
    ensures
        final(list)@.len() <= old(list)@.len() + 1,
        exists|i: int| 0 <= i < final(list)@.len() && #[trigger] final(list)@[i] == (key, value),
{
    let mut i: usize = 0;
    while i < list.len()
        invariant
            i <= list@.len(),
            list@ == old(list)@,
        decreases list@.len() - i,
    {
        if list[i].0 == key {
            list.set(i, (key, value));
            assert(list@[i as int] == (key, value));
            return;
        }
        i = i + 1;
    }
    list.push((key, value));
    assert(list@[list@.len() - 1] == (key, value));
}

/// The access bits of the access constant `id` names among `values`.
fn access_of(values: &Vec<(ValueId, u32)>, id: ValueId) -> (r: Option<u32>)
    ensures
        r == lookup(values@, id),
{
    let mut i: usize = 0;
    while i < values.len()
        invariant
            i <= values@.len(),
            lookup(values@.subrange(0, i as int), id) is None,
        decreases values@.len() - i,
    {
        assert(values@.subrange(0, i + 1).drop_last() =~= values@.subrange(0, i as int));
        if values[i].0 == id {
            proof {
                lemma_lookup_prefix(values@, i + 1, id);
            }
            return Some(values[i].1);
        }
        i = i + 1;
    }
    assert(values@.subrange(0, values@.len() as int) =~= values@);
    None
}

/// The state synchronization carries through a program: what it has written so far, where each
/// resource stands, and the access constants it shares.
pub struct Syncer {
    pub result: Vec<(ValueId, IR)>,
    pub images: Vec<(ValueId, ImageState)>,
    pub buffers: Vec<(ValueId, BufferState)>,
    pub emitted_memory: Vec<(u32, u32)>,
    pub no_access_id: ValueId,
    pub host_write_id: Option<ValueId>,
    pub read_access_ids: Vec<(u32, ValueId)>,
    pub next_id: u32,
}

/// After a use at `bits` of `buffer`, taking `before` to `after`: the use is at `id`, the
/// constant shared by reads at `bits` or a fresh one, and where the buffer was last reached at
/// some other access, a memory barrier from that access to `id` was added (or one between the
/// same accesses had already been added for the instruction at hand), and the buffer rests at
/// `id` from then on.
pub open spec fn waits_for_use(before: Syncer, after: Syncer, buffer: ValueId, bits: u32, id: ValueId) -> bool {
    &&& (exists|k: int| 0 <= k < after.read_access_ids@.len() && #[trigger] after.read_access_ids@[k] == (bits, id)) || id.0
        >= before.next_id
    &&& match lookup(before.buffers@, buffer) {
        Some(last) => last.last_access != id ==> (exists|i: int|
            0 <= i < after.buffers@.len() && #[trigger] after.buffers@[i] == (buffer, BufferState { last_access: id, access: bits }))
            && (last.access != 0 ==> before.emitted_memory@.contains((last.access, bits)) || exists|k: int|
            before.result@.len() <= k < after.result@.len() && (#[trigger] after.result@[k]).1 == (IR::MemoryBarrier {
                src_access: last.last_access,
                dst_access: id,
            })),
        None => true,
    }
}

/// After a use at `bits` of `buffer` that writes, taking `before` to `after`: the buffer rests
/// at `id`, a constant no earlier instruction has, and where it had been reached at some
/// access, a memory barrier from that access to `id` was added, or one between the same
/// accesses had already been added for the instruction at hand.
pub open spec fn waits_for_write(before: Syncer, after: Syncer, buffer: ValueId, bits: u32, id: ValueId) -> bool {
    &&& id.0 >= before.next_id
    &&& exists|i: int| 0 <= i < after.buffers@.len() && #[trigger] after.buffers@[i] == (buffer, BufferState { last_access: id, access: bits })
    &&& match lookup(before.buffers@, buffer) {
        Some(last) => last.access != 0 ==> before.emitted_memory@.contains((last.access, bits)) || exists|k: int|
            before.result@.len() <= k < after.result@.len() && (#[trigger] after.result@[k]).1 == (IR::MemoryBarrier {
                src_access: last.last_access,
                dst_access: id,
            }),
        None => before.emitted_memory@.contains((ACCESS_HOST_WRITE, bits)) || exists|k: int|
            before.result@.len() <= k < after.result@.len() && ((#[trigger] after.result@[k]).1 matches IR::MemoryBarrier {
                dst_access,
                ..
            } && dst_access == id),
    }
}

impl Syncer {
    /// Everything added from `base` on is a synchronization instruction under a fresh id.
    pub open spec fn inv(&self, base: u32) -> bool {
        &&& self.next_id >= base
        &&& forall|k: int| 0 <= k < self.result@.len() ==> (#[trigger] self.result@[k]).0.0 < self.next_id
        &&& forall|k: int|
            0 <= k < self.result@.len() && (#[trigger] self.result@[k]).0.0 >= base ==> is_sync_instruction(
                self.result@[k].1,
            )
    }

    /// `self` holds what `old` held, with only synchronization instructions added.
    pub open spec fn grew(&self, old: &Syncer, base: u32) -> bool {
        &&& self.inv(base)
        &&& self.result@.filter(recorded_before(base)) == old.result@.filter(recorded_before(base))
        &&& self.result@.len() >= old.result@.len()
        &&& self.next_id >= old.next_id
    }

    fn allocate(&mut self, Ghost(base): Ghost<u32>) -> (r: Option<ValueId>)
        requires
            old(self).inv(base),
        ensures
            appended_sync(old(self).result@, final(self).result@),
            final(self).grew(old(self), base),
            final(self).result == old(self).result,
            final(self).images == old(self).images,
            final(self).buffers == old(self).buffers,
            final(self).host_write_id == old(self).host_write_id,
            final(self).read_access_ids == old(self).read_access_ids,
            final(self).no_access_id == old(self).no_access_id,
            final(self).emitted_memory == old(self).emitted_memory,
            r matches Some(id) ==> id.0 >= base && id.0 == old(self).next_id && final(self).next_id == id.0 + 1,
            r is None ==> final(self).next_id == old(self).next_id && old(self).next_id == u32::MAX,
    {
        if self.next_id == u32::MAX {
            return None;
        }
        let id = ValueId(self.next_id);
        self.next_id = self.next_id + 1;
        Some(id)
    }

    /// A fresh access constant for `bits`.
    fn emit_access(&mut self, bits: u32, Ghost(base): Ghost<u32>) -> (r: Option<ValueId>)
        requires
            old(self).inv(base),
        ensures
            appended_sync(old(self).result@, final(self).result@),
            final(self).grew(old(self), base),
            final(self).images == old(self).images,
            final(self).buffers == old(self).buffers,
            final(self).host_write_id == old(self).host_write_id,
            final(self).read_access_ids == old(self).read_access_ids,
            final(self).no_access_id == old(self).no_access_id,
            final(self).emitted_memory == old(self).emitted_memory,
            final(self).result@.len() <= old(self).result@.len() + 1,
            r is Some ==> final(self).result@ == old(self).result@.push(
                (r->0, IR::Constant(Constant::Access(Access(bits)))),
            ),
            r matches Some(id) ==> id.0 >= old(self).next_id,
            r is None ==> final(self).next_id == u32::MAX,
    {
        let id = match self.allocate(Ghost(base)) {
            Some(id) => id,
            None => return None,
        };
        let ghost before = self.result@;
        self.result.push((id, IR::Constant(Constant::Access(Access(bits)))));
        proof {
            lemma_filter_push(before, (id, IR::Constant(Constant::Access(Access(bits)))), recorded_before(base));
        }
        Some(id)
    }

    /// The shared constant for a read at `bits`, emitted the first time it is asked for.
    fn read_access(&mut self, bits: u32, Ghost(base): Ghost<u32>) -> (r: Option<ValueId>)
        requires
            old(self).inv(base),
        ensures
            appended_sync(old(self).result@, final(self).result@),
            final(self).grew(old(self), base),
            final(self).images == old(self).images,
            final(self).buffers == old(self).buffers,
            final(self).host_write_id == old(self).host_write_id,
            final(self).no_access_id == old(self).no_access_id,
            final(self).emitted_memory == old(self).emitted_memory,
            r matches Some(id) ==> exists|k: int|
                0 <= k < final(self).read_access_ids@.len() && #[trigger] final(self).read_access_ids@[k] == (bits, id),
            r is None ==> final(self).next_id == u32::MAX,
    {
        let mut i: usize = 0;
        while i < self.read_access_ids.len()
            invariant
                i <= self.read_access_ids@.len(),
                *self == *old(self),
                old(self).inv(base),
            decreases self.read_access_ids@.len() - i,
        {
            if self.read_access_ids[i].0 == bits {
                proof {
                    assert(self.read_access_ids@[i as int] == (bits, self.read_access_ids@[i as int].1));
                }
                return Some(self.read_access_ids[i].1);
            }
            i = i + 1;
        }
        let id = match self.emit_access(bits, Ghost(base)) {
            Some(id) => id,
            None => return None,
        };
        self.read_access_ids.push((bits, id));
        proof {
            assert(self.read_access_ids@[self.read_access_ids@.len() - 1] == (bits, id));
        }
        Some(id)
    }

    /// The one constant every buffer the host filled rests at.
    fn host_write(&mut self, Ghost(base): Ghost<u32>) -> (r: Option<ValueId>)
        requires
            old(self).inv(base),
        ensures
            appended_sync(old(self).result@, final(self).result@),
            final(self).grew(old(self), base),
            final(self).images == old(self).images,
            final(self).buffers == old(self).buffers,
            final(self).no_access_id == old(self).no_access_id,
            final(self).emitted_memory == old(self).emitted_memory,
            r matches Some(id) ==> final(self).host_write_id == Some(id),
            old(self).host_write_id is Some ==> r == old(self).host_write_id,
            r is None ==> final(self).next_id == u32::MAX,
    {
        match self.host_write_id {
            Some(id) => Some(id),
            None => {
                let id = match self.emit_access(ACCESS_HOST_WRITE, Ghost(base)) {
                    Some(id) => id,
                    None => return None,
                };
                self.host_write_id = Some(id);
                Some(id)
            },
        }
    }

    /// The constant a buffer rests at until something in the program touches it, which is what
    /// its first barrier waits on: nothing for one the graph allocates, the host's write for
    /// one the host filled, a constant of its own for a write, a shared one for a read.
    fn resting_access(&mut self, bits: u32, Ghost(base): Ghost<u32>) -> (r: Option<ValueId>)
        requires
            old(self).inv(base),
        ensures
            appended_sync(old(self).result@, final(self).result@),
            final(self).grew(old(self), base),
            final(self).images == old(self).images,
            final(self).buffers == old(self).buffers,
            final(self).no_access_id == old(self).no_access_id,
            final(self).emitted_memory == old(self).emitted_memory,
            bits == 0 ==> r == Some(old(self).no_access_id),
            bits != 0 && bits == ACCESS_HOST_WRITE ==> (r matches Some(id) ==> final(self).host_write_id == Some(id)),
            bits != 0 && bits != ACCESS_HOST_WRITE && Access(bits).spec_writes() ==> (r matches Some(id)
                ==> final(self).result@ == old(self).result@.push((id, IR::Constant(Constant::Access(Access(bits)))))),
            bits != 0 && bits != ACCESS_HOST_WRITE && !Access(bits).spec_writes() ==> (r matches Some(id) ==> exists|k: int|
                0 <= k < final(self).read_access_ids@.len() && #[trigger] final(self).read_access_ids@[k] == (bits, id)),
            r is None ==> final(self).next_id == u32::MAX,
    {
        if bits == 0 {
            Some(self.no_access_id)
        } else if bits == ACCESS_HOST_WRITE {
            self.host_write(Ghost(base))
        } else if Access(bits).writes() {
            self.emit_access(bits, Ghost(base))
        } else {
            self.read_access(bits, Ghost(base))
        }
    }

    /// A memory barrier from `src` to `dst`, unless one between the same accesses was already
    /// emitted for the instruction being synchronized.
    fn emit_memory_barrier(&mut self, src: BufferState, dst: BufferState, Ghost(base): Ghost<u32>) -> (r: Option<()>)
        requires
            old(self).inv(base),
        ensures
            final(self).read_access_ids == old(self).read_access_ids,
            appended_sync(old(self).result@, final(self).result@),
            final(self).grew(old(self), base),
            final(self).images == old(self).images,
            final(self).buffers == old(self).buffers,
            final(self).no_access_id == old(self).no_access_id,
            r is Some ==> (*final(self) == *old(self) && old(self).emitted_memory@.contains((src.access, dst.access))) || (
            final(self).emitted_memory@ == old(self).emitted_memory@.push((src.access, dst.access))
                && final(self).result@ == old(self).result@.push(
                (
                    ValueId((final(self).next_id - 1) as u32),
                    IR::MemoryBarrier { src_access: src.last_access, dst_access: dst.last_access },
                ),
            )),
            r is None ==> final(self).next_id == u32::MAX,
    {
        let mut i: usize = 0;
        while i < self.emitted_memory.len()
            invariant
                i <= self.emitted_memory@.len(),
                *self == *old(self),
                old(self).inv(base),
            decreases self.emitted_memory@.len() - i,
        {
            if self.emitted_memory[i].0 == src.access && self.emitted_memory[i].1 == dst.access {
                proof {
                    assert(self.emitted_memory@[i as int] == (src.access, dst.access));
                }
                return Some(());
            }
            i = i + 1;
        }
        self.emitted_memory.push((src.access, dst.access));
        let id = match self.allocate(Ghost(base)) {
            Some(id) => id,
            None => return None,
        };
        let ghost before = self.result@;
        let ir = IR::MemoryBarrier { src_access: src.last_access, dst_access: dst.last_access };
        self.result.push((id, ir));
        proof {
            lemma_filter_push(before, (id, ir), recorded_before(base));
        }
        Some(())
    }

    /// An image barrier moving `resource` from `old_layout` after `src` to `new_layout`
    /// before `dst`.
    fn emit_barrier(
        &mut self,
        src: ValueId,
        dst: ValueId,
        old_layout: i32,
        new_layout: i32,
        resource: ValueId,
        Ghost(base): Ghost<u32>,
    ) -> (r: Option<()>)
        requires
            old(self).inv(base),
        ensures
            appended_sync(old(self).result@, final(self).result@),
            final(self).grew(old(self), base),
            final(self).images == old(self).images,
            final(self).buffers == old(self).buffers,
            final(self).no_access_id == old(self).no_access_id,
            final(self).emitted_memory == old(self).emitted_memory,
            r is Some ==> final(self).result@ == old(self).result@.push(
                (
                    ValueId((final(self).next_id - 1) as u32),
                    IR::ImageBarrier { src_access: src, dst_access: dst, old_layout, new_layout, value: resource },
                ),
            ),
            r is None ==> final(self).next_id == u32::MAX,
    {
        let id = match self.allocate(Ghost(base)) {
            Some(id) => id,
            None => return None,
        };
        let ghost before = self.result@;
        let ir = IR::ImageBarrier { src_access: src, dst_access: dst, old_layout, new_layout, value: resource };
        self.result.push((id, ir));
        proof {
            lemma_filter_push(before, (id, ir), recorded_before(base));
        }
        Some(())
    }

    /// Makes what `buffer` was last reached at visible to a use at `bits`. A write always waits
    /// on a constant of its own; a buffer that was resting at nothing needs no barrier at all.
    fn buffer_barrier(&mut self, buffer: ValueId, bits: u32, Ghost(base): Ghost<u32>) -> (r: Option<()>)
        requires
            old(self).inv(base),
        ensures
            appended_sync(old(self).result@, final(self).result@),
            final(self).grew(old(self), base),
            final(self).images == old(self).images,
            final(self).no_access_id == old(self).no_access_id,
            r is None ==> final(self).next_id == u32::MAX,
            r is Some && Access(bits).spec_writes() ==> exists|id: ValueId| #[trigger] waits_for_write(*old(self), *final(self), buffer, bits, id),
            r is Some ==> exists|id: ValueId| #[trigger] waits_for_use(*old(self), *final(self), buffer, bits, id),
    {
        let ghost start = *self;
        let found = find_buffer(&self.buffers, buffer);
        let last = match found {
            Some(state) => state,
            None => {
                let id = match self.host_write(Ghost(base)) {
                    Some(id) => id,
                    None => return None,
                };
                BufferState { last_access: id, access: ACCESS_HOST_WRITE }
            },
        };
        let ghost after_host = *self;
        let next_id = if Access(bits).writes() {
            self.emit_access(bits, Ghost(base))
        } else {
            self.read_access(bits, Ghost(base))
        };
        let next = match next_id {
            Some(id) => BufferState { last_access: id, access: bits },
            None => return None,
        };
        let ghost mid = *self;
        let ghost mut barrier_at: int = -1;
        if Access(bits).writes() || last.last_access != next.last_access {
            if last.access != 0 {
                if self.emit_memory_barrier(last, next, Ghost(base)).is_none() {
                    return None;
                }
                proof {
                    if !mid.emitted_memory@.contains((last.access, next.access)) {
                        barrier_at = (self.result@.len() - 1) as int;
                        assert(self.result@[barrier_at].1 == IR::MemoryBarrier {
                            src_access: last.last_access,
                            dst_access: next.last_access,
                        });
                    }
                }
            }
            store_buffer(&mut self.buffers, buffer, next);
        }
        proof {
            if Access(bits).spec_writes() {
                assert(next.last_access.0 >= after_host.next_id);
                assert(after_host.next_id >= start.next_id);
                assert(mid.emitted_memory == start.emitted_memory);
                assert(mid.result@.len() >= start.result@.len());
                assert(found == lookup(start.buffers@, buffer));
                if last.access != 0 && !start.emitted_memory@.contains((last.access, bits)) {
                    assert(start.result@.len() <= barrier_at < self.result@.len());
                    assert(self.result@[barrier_at].1 == IR::MemoryBarrier {
                        src_access: last.last_access,
                        dst_access: next.last_access,
                    });
                }
                let i = choose|i: int| 0 <= i < self.buffers@.len() && #[trigger] self.buffers@[i] == (buffer, next);
                assert(self.buffers@[i] == (buffer, BufferState { last_access: next.last_access, access: bits }));
                if last.access != 0 && !start.emitted_memory@.contains((last.access, bits)) {
                    let b = self.result@[barrier_at];
                    assert(b.1 matches IR::MemoryBarrier { dst_access, .. } && dst_access == next.last_access);
                }
                let id = next.last_access;
                let after = *self;
                assert(id.0 >= start.next_id);
                assert(exists|i: int| 0 <= i < after.buffers@.len() && #[trigger] after.buffers@[i] == (buffer, BufferState { last_access: id, access: bits }));
                match lookup(start.buffers@, buffer) {
                    Some(l) => {
                        assert(l == last);
                        assert(l.access != 0 ==> start.emitted_memory@.contains((l.access, bits)) || exists|k: int|
                            start.result@.len() <= k < after.result@.len() && (#[trigger] after.result@[k]).1 == (IR::MemoryBarrier {
                                src_access: l.last_access,
                                dst_access: id,
                            }));
                    },
                    None => {
                        assert(last.access == ACCESS_HOST_WRITE);
                        assert(ACCESS_HOST_WRITE != 0) by (bit_vector);
                        if !start.emitted_memory@.contains((ACCESS_HOST_WRITE, bits)) {
                            assert(start.result@.len() <= barrier_at < after.result@.len());
                            assert(after.result@[barrier_at].1 matches IR::MemoryBarrier { dst_access, .. } && dst_access == id);
                        }
                        assert(start.emitted_memory@.contains((ACCESS_HOST_WRITE, bits)) || exists|k: int|
                            start.result@.len() <= k < after.result@.len() && ((#[trigger] after.result@[k]).1 matches IR::MemoryBarrier {
                                dst_access,
                                ..
                            } && dst_access == id));
                    },
                }
                assert(waits_for_write(start, *self, buffer, bits, next.last_access));
            }
            if let Some(l) = lookup(start.buffers@, buffer) {
                assert(l == last);
                if l.last_access != next.last_access {
                    let i = choose|i: int| 0 <= i < self.buffers@.len() && #[trigger] self.buffers@[i] == (buffer, next);
                    assert(self.buffers@[i] == (buffer, BufferState { last_access: next.last_access, access: bits }));
                    if l.access != 0 && !start.emitted_memory@.contains((l.access, bits)) {
                        assert(start.result@.len() <= barrier_at < self.result@.len());
                        assert(self.result@[barrier_at].1 == IR::MemoryBarrier {
                            src_access: l.last_access,
                            dst_access: next.last_access,
                        });
                    }
                }
            }
            if !Access(bits).spec_writes() {
                assert(exists|k: int| 0 <= k < mid.read_access_ids@.len() && #[trigger] mid.read_access_ids@[k] == (bits, next.last_access));
                assert(self.read_access_ids == mid.read_access_ids);
            }
            assert(waits_for_use(start, *self, buffer, bits, next.last_access));
        }
        Some(())
    }

    /// Brings `resource` to the layout `bits` calls for before a use at `bits`, waiting on
    /// `access_id`. A read in the layout the image already rests in, after nothing but reads,
    /// joins the reads already made instead of waiting again; anything else, a write on either
    /// side or a change of layout, is an image barrier from where the image rested to the use.
    /// The image then rests in that layout at the use's access, and no other image moves.
    fn transition(
        &mut self,
        instrs: &Vec<IR>,
        resource: ValueId,
        access_id: ValueId,
        bits: u32,
        Ghost(base): Ghost<u32>,
    ) -> (r: Option<()>)
        requires
            old(self).inv(base),
        ensures
            appended_sync(old(self).result@, final(self).result@),
            final(self).grew(old(self), base),
            final(self).buffers == old(self).buffers,
            final(self).no_access_id == old(self).no_access_id,
            r is Some ==> {
                let root = root_spec(instrs@, resource, MAX_RESOLVE_DEPTH as nat);
                let state = resting_state(old(self).images@, root, old(self).no_access_id);
                let joins = joins_reads(state, bits);
                &&& lookup(final(self).images@, root) matches Some(now) && now.layout == layout_of(bits) && now.access == (
                if joins {
                    state.access | bits
                } else {
                    bits
                })
                &&& !joins ==> final(self).result@.len() == old(self).result@.len() + 1 && final(self).result@.last().1
                    == (IR::ImageBarrier {
                    src_access: state.last_access,
                    dst_access: access_id,
                    old_layout: state.layout,
                    new_layout: layout_of(bits),
                    value: resource,
                })
                &&& forall|other: ValueId|
                    other != root ==> #[trigger] lookup(final(self).images@, other) == lookup(old(self).images@, other)
            },
            r is None ==> final(self).next_id == u32::MAX,
    {
        let root = resource_root(instrs, resource);
        let undefined = ImageState { layout: LAYOUT_UNDEFINED, last_access: self.no_access_id, access: 0 };
        let state = match find_image(&self.images, root) {
            Some(state) => state,
            None => undefined,
        };
        let new_layout = Access(bits).layout();
        let new_state = if state.layout == new_layout && !Access(state.access).writes() && !Access(bits).writes() {
            let merged = state.access | bits;
            let last_access = if merged == state.access {
                state.last_access
            } else {
                match self.emit_access(merged, Ghost(base)) {
                    Some(id) => id,
                    None => return None,
                }
            };
            ImageState { layout: new_layout, last_access, access: merged }
        } else {
            if self.emit_barrier(state.last_access, access_id, state.layout, new_layout, resource, Ghost(base)).is_none() {
                return None;
            }
            ImageState { layout: new_layout, last_access: access_id, access: bits }
        };
        store_image(&mut self.images, root, new_state);
        Some(())
    }
}

/// Where `images` says `root` rests, or undefined at nothing for an image not yet reached.
pub open spec fn resting_state(images: Seq<(ValueId, ImageState)>, root: ValueId, nothing: ValueId) -> ImageState {
    match lookup(images, root) {
        Some(state) => state,
        None => ImageState { layout: LAYOUT_UNDEFINED, last_access: nothing, access: 0 },
    }
}

/// A use at `bits` of an image resting at `state` joins the reads made in place: both sides
/// read, and the image already rests in the layout the use calls for.
pub open spec fn joins_reads(state: ImageState, bits: u32) -> bool {
    state.layout == layout_of(bits) && state.access & ACCESS_WRITES == 0 && bits & ACCESS_WRITES == 0
}

/// `v` back to front.
pub fn reversed<T>(v: Vec<T>) -> (r: Vec<T>)
    ensures
        r@.len() == v@.len(),
        forall|i: int| 0 <= i < v@.len() ==> #[trigger] r@[i] == v@[v@.len() - 1 - i],
{
    let mut v = v;
    let ghost orig = v@;
    let mut r: Vec<T> = Vec::new();
    while v.len() > 0
        invariant
            v@ == orig.subrange(0, v@.len() as int),
            r@.len() + v@.len() == orig.len(),
            forall|i: int| 0 <= i < r@.len() ==> #[trigger] r@[i] == orig[orig.len() - 1 - i],
        decreases v@.len(),
    {
        let x = v.pop().unwrap();
        r.push(x);
    }
    r
}

/// How many ways `ir` branches to `label`.
pub open spec fn branches_to(ir: IR, label: LabelId) -> nat {
    match ir {
        IR::Branch { target } => if target == label { 1nat } else { 0nat },
        IR::BranchConditional { true_label, false_label, .. } => (if true_label == label { 1nat } else { 0nat }) + (
        if false_label == label { 1nat } else { 0nat }),
        _ => 0nat,
    }
}

/// How many ways the branches of `s` lead into `label`.
pub open spec fn ways(s: Seq<(ValueId, IR)>, label: LabelId) -> nat
    decreases s.len(),
{
    if s.len() == 0 {
        0
    } else {
        ways(s.drop_last(), label) + branches_to(s.last().1, label)
    }
}

/// `n`, or the largest `usize` where it does not fit.
pub open spec fn saturated(n: nat) -> usize {
    if n <= usize::MAX {
        n as usize
    } else {
        usize::MAX
    }
}

/// How many branches lead into `label`.
fn ways_in(nodes: &Vec<(ValueId, IR)>, label: LabelId) -> (r: usize)
    ensures
        r == saturated(ways(nodes@, label)),
{
    let mut count: usize = 0;
    let mut i: usize = 0;
    while i < nodes.len()
        invariant
            i <= nodes@.len(),
            count == saturated(ways(nodes@.take(i as int), label)),
        decreases nodes@.len() - i,
    {
        proof {
            assert(nodes@.take(i + 1).drop_last() =~= nodes@.take(i as int));
        }
        match &nodes[i].1 {
            IR::Branch { target } => {
                if *target == label && count < usize::MAX {
                    count = count + 1;
                }
            },
            IR::BranchConditional { true_label, false_label, .. } => {
                if *true_label == label && count < usize::MAX {
                    count = count + 1;
                }
                if *false_label == label && count < usize::MAX {
                    count = count + 1;
                }
            },
            _ => {},
        }
        i = i + 1;
    }
    proof {
        assert(nodes@.take(i as int) =~= nodes@);
    }
    count
}

/// Adds `bits` to what `list` records for `root`, or records it.
fn merge_use(list: &mut Vec<(ValueId, u32)>, root: ValueId, bits: u32)
    ensures
        (exists|i: int|
            0 <= i < old(list)@.len() && (#[trigger] old(list)@[i]).0 == root && (forall|j: int|
                0 <= j < i ==> (#[trigger] old(list)@[j]).0 != root) && final(list)@ == old(list)@.update(
                i,
                (root, old(list)@[i].1 | bits),
            )) || ((forall|j: int| 0 <= j < old(list)@.len() ==> (#[trigger] old(list)@[j]).0 != root) && final(list)@
            == old(list)@.push((root, bits))),
{
    let mut i: usize = 0;
    while i < list.len()
        invariant
            i <= list@.len(),
            list@ == old(list)@,
            forall|j: int| 0 <= j < i ==> (#[trigger] old(list)@[j]).0 != root,
        decreases list@.len() - i,
    {
        if list[i].0 == root {
            let merged = list[i].1 | bits;
            list.set(i, (root, merged));
            return;
        }
        i = i + 1;
    }
    list.push((root, bits));
}

/// Records `root` at `bits` in `list` unless it is there already.
fn add_use(list: &mut Vec<(ValueId, u32)>, root: ValueId, bits: u32)
    ensures
        (exists|i: int| 0 <= i < old(list)@.len() && (#[trigger] old(list)@[i]).0 == root) ==> final(list)@ == old(list)@,
        (forall|j: int| 0 <= j < old(list)@.len() ==> (#[trigger] old(list)@[j]).0 != root) ==> final(list)@ == old(list)@.push(
            (root, bits),
        ),
{
    let mut i: usize = 0;
    while i < list.len()
        invariant
            i <= list@.len(),
            list@ == old(list)@,
            forall|j: int| 0 <= j < i ==> (#[trigger] old(list)@[j]).0 != root,
        decreases list@.len() - i,
    {
        if list[i].0 == root {
            return;
        }
        i = i + 1;
    }
    list.push((root, bits));
}

/// What each region's descriptor writes sample and its vertex and index buffer binds read, by
/// the id of the instruction that opened it: images merged over every write to them, buffers
/// at the access they are first bound with. `None` where a write names no access constant.
fn region_uses(
    instrs: &Vec<IR>,
    nodes: &Vec<(ValueId, IR)>,
    access_values: &Vec<(ValueId, u32)>,
) -> (r: Option<(Vec<(ValueId, Vec<(ValueId, u32)>)>, Vec<(ValueId, Vec<(ValueId, u32)>)>)>)
    ensures
        r is None <==> exists|k: int| 0 <= k < nodes@.len() && #[trigger] unnamed_write(nodes@[k].1, access_values@),
        r matches Some((images, buffers)) ==> {
            &&& images@.len() == opened_regions(nodes@).len()
            &&& buffers@.len() == opened_regions(nodes@).len()
            &&& forall|q: int| 0 <= q < images@.len() ==> (#[trigger] images@[q]).0 == opened_regions(nodes@)[q]
            &&& forall|q: int| 0 <= q < buffers@.len() ==> (#[trigger] buffers@[q]).0 == opened_regions(nodes@)[q]
        },
{
    let mut images: Vec<(ValueId, Vec<(ValueId, u32)>)> = Vec::new();
    let mut buffers: Vec<(ValueId, Vec<(ValueId, u32)>)> = Vec::new();
    let mut open: Option<ValueId> = None;
    let mut i: usize = 0;
    while i < nodes.len()
        invariant
            i <= nodes@.len(),
            images@.len() == buffers@.len(),
            open is Some ==> images@.len() > 0,
            forall|j: int| 0 <= j < i ==> !#[trigger] unnamed_write(nodes@[j].1, access_values@),
            images@.len() == opened_regions(nodes@.take(i as int)).len(),
            forall|q: int| 0 <= q < images@.len() ==> (#[trigger] images@[q]).0 == opened_regions(nodes@.take(i as int))[q],
            forall|q: int| 0 <= q < buffers@.len() ==> (#[trigger] buffers@[q]).0 == opened_regions(nodes@.take(i as int))[q],
        decreases nodes@.len() - i,
    {
        proof {
            assert(nodes@.take(i + 1).drop_last() =~= nodes@.take(i as int));
            assert(nodes@.take(i + 1).last() == nodes@[i as int]);
        }
        let ghost images_before = images@;
        let ghost buffers_before = buffers@;
        let value_id = nodes[i].0;
        match &nodes[i].1 {
            IR::BeginRendering { .. } | IR::BeginCompute { .. } => {
                open = Some(value_id);
                images.push((value_id, Vec::new()));
                buffers.push((value_id, Vec::new()));
            },
            IR::EndRendering { .. } | IR::EndCompute { .. } => {
                open = None;
            },
            IR::WriteDescriptor { descriptor, access, .. } => {
                let bits = match access_of(access_values, *access) {
                    Some(bits) => bits,
                    None => {
                        proof {
                            assert(unnamed_write(nodes@[i as int].1, access_values@));
                        }
                        return None;
                    },
                };
                if open.is_some() {
                    let root = resource_root(instrs, descriptor.image());
                    let last = images.len() - 1;
                    let (region, mut list) = images.remove(last);
                    merge_use(&mut list, root, bits);
                    images.push((region, list));
                }
            },
            IR::BindVertexBuffers { buffers: bound, .. } => {
                if open.is_some() {
                    let last = buffers.len() - 1;
                    let (region, mut list) = buffers.remove(last);
                    let mut k: usize = 0;
                    while k < bound.len()
                        invariant
                            k <= bound@.len(),
                        decreases bound@.len() - k,
                    {
                        add_use(&mut list, resource_root(instrs, bound[k]), ACCESS_ATTRIBUTE_READ);
                        k = k + 1;
                    }
                    buffers.push((region, list));
                }
            },
            IR::BindIndexBuffer { buffer, .. } => {
                if open.is_some() {
                    let last = buffers.len() - 1;
                    let (region, mut list) = buffers.remove(last);
                    add_use(&mut list, resource_root(instrs, *buffer), ACCESS_INDEX_READ);
                    buffers.push((region, list));
                }
            },
            _ => {},
        }
        proof {
            let o = opened_regions(nodes@.take(i + 1));
            assert forall|q: int| 0 <= q < images@.len() implies (#[trigger] images@[q]).0 == o[q] by {
                if q < images_before.len() {
                    assert(images@[q].0 == images_before[q].0);
                }
            }
            assert forall|q: int| 0 <= q < buffers@.len() implies (#[trigger] buffers@[q]).0 == o[q] by {
                if q < buffers_before.len() {
                    assert(buffers@[q].0 == buffers_before[q].0);
                }
            }
        }
        i = i + 1;
    }
    proof {
        assert(nodes@.take(i as int) =~= nodes@);
    }
    Some((images, buffers))
}

/// A descriptor write whose access names no access constant of `values`.
pub open spec fn unnamed_write(ir: IR, values: Seq<(ValueId, u32)>) -> bool {
    match ir {
        IR::WriteDescriptor { access, .. } => lookup(values, access) is None,
        _ => false,
    }
}

/// The ids of the instructions of `s` that open a region, in order.
pub open spec fn opened_regions(s: Seq<(ValueId, IR)>) -> Seq<ValueId>
    decreases s.len(),
{
    if s.len() == 0 {
        Seq::empty()
    } else {
        match s.last().1 {
            IR::BeginRendering { .. } | IR::BeginCompute { .. } => opened_regions(s.drop_last()).push(s.last().0),
            _ => opened_regions(s.drop_last()),
        }
    }
}

/// The uses `region` was found to make, in `by_region`.
fn uses_of(by_region: &Vec<(ValueId, Vec<(ValueId, u32)>)>, region: ValueId) -> (r: Vec<(ValueId, u32)>)
    ensures
        (exists|i: int|
            0 <= i < by_region@.len() && (#[trigger] by_region@[i]).0 == region && (forall|j: int|
                0 <= j < i ==> (#[trigger] by_region@[j]).0 != region) && r@ == by_region@[i].1@) || ((forall|j: int|
            0 <= j < by_region@.len() ==> (#[trigger] by_region@[j]).0 != region) && r@.len() == 0),
{
    let mut i: usize = 0;
    while i < by_region.len()
        invariant
            i <= by_region@.len(),
            forall|j: int| 0 <= j < i ==> (#[trigger] by_region@[j]).0 != region,
        decreases by_region@.len() - i,
    {
        if by_region[i].0 == region {
            return copy_uses(&by_region[i].1);
        }
        i = i + 1;
    }
    Vec::new()
}

fn copy_uses(v: &Vec<(ValueId, u32)>) -> (r: Vec<(ValueId, u32)>)
    ensures
        r@ == v@,
{
    let mut r: Vec<(ValueId, u32)> = Vec::with_capacity(v.len());
    let mut i: usize = 0;
    while i < v.len()
        invariant
            i <= v@.len(),
            r@ == v@.subrange(0, i as int),
        decreases v@.len() - i,
    {
        r.push(v[i]);
        i = i + 1;
    }
    r
}

fn contains_id(list: &Vec<ValueId>, id: ValueId) -> (r: bool)
    ensures
        r == list@.contains(id),
{
    let mut i: usize = 0;
    while i < list.len()
        invariant
            i <= list@.len(),
            forall|k: int| 0 <= k < i ==> list@[k] != id,
        decreases list@.len() - i,
    {
        if list[i] == id {
            return true;
        }
        i = i + 1;
    }
    false
}

/// The resource roots named past each label: what a join there may have to bring back into
/// agreement. A selection is the only construct there is, so program order is the whole of
/// what can follow a label.
fn live_after(instrs: &Vec<IR>, nodes: &Vec<(ValueId, IR)>) -> (r: Vec<(LabelId, Vec<ValueId>)>)
    ensures
        r@.len() == labels_after(instrs@, nodes@).len(),
        forall|k: int| 0 <= k < r@.len() ==> (#[trigger] r@[k]).0 == labels_after(instrs@, nodes@)[k].0 && r@[k].1@
            == labels_after(instrs@, nodes@)[k].1,
{
    let mut result: Vec<(LabelId, Vec<ValueId>)> = Vec::new();
    let mut live: Vec<ValueId> = Vec::new();
    let mut i: usize = nodes.len();
    proof {
        assert(nodes@.subrange(nodes@.len() as int, nodes@.len() as int) =~= Seq::<(ValueId, IR)>::empty());
    }
    while i > 0
        invariant
            i <= nodes@.len(),
            live@ == roots_named(instrs@, nodes@.subrange(i as int, nodes@.len() as int)),
            result@.len() == labels_after(instrs@, nodes@.subrange(i as int, nodes@.len() as int)).len(),
            forall|k: int| 0 <= k < result@.len() ==> (#[trigger] result@[k]).0 == labels_after(
                instrs@,
                nodes@.subrange(i as int, nodes@.len() as int),
            )[k].0 && result@[k].1@ == labels_after(instrs@, nodes@.subrange(i as int, nodes@.len() as int))[k].1,
        decreases i,
    {
        i = i - 1;
        let ghost rest = nodes@.subrange(i + 1, nodes@.len() as int);
        let ghost here = nodes@.subrange(i as int, nodes@.len() as int);
        proof {
            assert(here.drop_first() =~= rest);
            assert(here[0] == nodes@[i as int]);
        }
        let ghost result_before = result@;
        if let IR::Label { label } = &nodes[i].1 {
            result.push((*label, copy_id_list(&live)));
            proof {
                assert forall|k: int| 0 <= k < result@.len() implies (#[trigger] result@[k]).0 == labels_after(
                    instrs@,
                    here,
                )[k].0 && result@[k].1@ == labels_after(instrs@, here)[k].1 by {
                    if k < result_before.len() {
                        assert(result@[k] == result_before[k]);
                    }
                }
            }
        }
        let effects = nodes[i].1.visit_resource_side_effects();
        let ghost live_before = live@;
        let mut k: usize = 0;
        while k < effects.len()
            invariant
                k <= effects@.len(),
                effects@ == resource_effects_spec(nodes@[i as int].1),
                live@ == add_roots(instrs@, live_before, effects@.take(k as int)),
            decreases effects@.len() - k,
        {
            proof {
                assert(effects@.take(k + 1).drop_last() =~= effects@.take(k as int));
                assert(effects@.take(k + 1).last() == effects@[k as int]);
            }
            let root = resource_root(instrs, effects[k].resource);
            if !contains_id(&live, root) {
                live.push(root);
            }
            k = k + 1;
        }
        proof {
            assert(effects@.take(k as int) =~= effects@);
        }
    }
    proof {
        assert(nodes@.subrange(0, nodes@.len() as int) =~= nodes@);
    }
    result
}

/// `live` with the root of each resource `effects` reach added, in order, where it is not there.
pub open spec fn add_roots(instrs: Seq<IR>, live: Seq<ValueId>, effects: Seq<ResourceSideEffect>) -> Seq<ValueId>
    decreases effects.len(),
{
    if effects.len() == 0 {
        live
    } else {
        let before = add_roots(instrs, live, effects.drop_last());
        let root = root_spec(instrs, effects.last().resource, MAX_RESOLVE_DEPTH as nat);
        if before.contains(root) {
            before
        } else {
            before.push(root)
        }
    }
}

/// The roots of the resources `s` reaches, met going from its end to its start.
pub open spec fn roots_named(instrs: Seq<IR>, s: Seq<(ValueId, IR)>) -> Seq<ValueId>
    decreases s.len(),
{
    if s.len() == 0 {
        Seq::empty()
    } else {
        add_roots(instrs, roots_named(instrs, s.drop_first()), resource_effects_spec(s[0].1))
    }
}

/// Each label of `s`, going from its end to its start, with the roots of the resources named
/// past it.
pub open spec fn labels_after(instrs: Seq<IR>, s: Seq<(ValueId, IR)>) -> Seq<(LabelId, Seq<ValueId>)>
    decreases s.len(),
{
    if s.len() == 0 {
        Seq::empty()
    } else {
        let later = labels_after(instrs, s.drop_first());
        match s[0].1 {
            IR::Label { label } => later.push((label, roots_named(instrs, s.drop_first()))),
            _ => later,
        }
    }
}

fn copy_id_list(v: &Vec<ValueId>) -> (r: Vec<ValueId>)
    ensures
        r@ == v@,
{
    let mut r: Vec<ValueId> = Vec::with_capacity(v.len());
    let mut i: usize = 0;
    while i < v.len()
        invariant
            i <= v@.len(),
            r@ == v@.subrange(0, i as int),
        decreases v@.len() - i,
    {
        r.push(v[i]);
        i = i + 1;
    }
    r
}

fn live_at(live: &Vec<(LabelId, Vec<ValueId>)>, label: LabelId) -> (r: Vec<ValueId>)
    ensures
        (exists|i: int|
            0 <= i < live@.len() && (#[trigger] live@[i]).0 == label && (forall|j: int|
                0 <= j < i ==> (#[trigger] live@[j]).0 != label) && r@ == live@[i].1@) || ((forall|j: int|
            0 <= j < live@.len() ==> (#[trigger] live@[j]).0 != label) && r@.len() == 0),
{
    let mut i: usize = 0;
    while i < live.len()
        invariant
            i <= live@.len(),
            forall|j: int| 0 <= j < i ==> (#[trigger] live@[j]).0 != label,
        decreases live@.len() - i,
    {
        if live[i].0 == label {
            return copy_id_list(&live[i].1);
        }
        i = i + 1;
    }
    Vec::new()
}

/// `list` ordered by resource id, ties in the order they were listed.
fn sorted_by_id<T>(list: Vec<(ValueId, T)>) -> (r: Vec<(ValueId, T)>)
    ensures
        r@.len() == list@.len(),
        forall|i: int, j: int| 0 <= i < j < r@.len() ==> (#[trigger] r@[i]).0.0 <= (#[trigger] r@[j]).0.0,
{
    let mut list = list;
    let ghost total = list@.len();
    let mut out: Vec<(ValueId, T)> = Vec::new();
    while list.len() > 0
        invariant
            out@.len() + list@.len() == total,
            forall|i: int, j: int| 0 <= i < j < out@.len() ==> (#[trigger] out@[i]).0.0 <= (#[trigger] out@[j]).0.0,
            forall|i: int, j: int|
                0 <= i < out@.len() && 0 <= j < list@.len() ==> (#[trigger] out@[i]).0.0 <= (#[trigger] list@[j]).0.0,
        decreases list@.len(),
    {
        let mut best: usize = 0;
        let mut k: usize = 1;
        while k < list.len()
            invariant
                1 <= k <= list@.len(),
                best < list@.len(),
                forall|j: int| 0 <= j < k ==> list@[best as int].0.0 <= (#[trigger] list@[j]).0.0,
            decreases list@.len() - k,
        {
            if list[k].0.0 < list[best].0.0 {
                best = k;
            }
            k = k + 1;
        }
        let ghost before = list@;
        let x = list.remove(best);
        proof {
            assert forall|j: int| 0 <= j < list@.len() implies x.0.0 <= (#[trigger] list@[j]).0.0 by {
                if j < best {
                    assert(list@[j] == before[j]);
                } else {
                    assert(list@[j] == before[j + 1]);
                }
            }
            assert forall|i: int, j: int|
                0 <= i < out@.len() && 0 <= j < list@.len() implies (#[trigger] out@[i]).0.0 <= (#[trigger] list@[j]).0.0 by {
                if j < best {
                    assert(list@[j] == before[j]);
                } else {
                    assert(list@[j] == before[j + 1]);
                }
            }
        }
        out.push(x);
    }
    out
}

impl Syncer {
    /// Puts `item`, a synchronization instruction under a fresh id, at `at`; past the end it is
    /// dropped.
    fn insert_at(&mut self, at: usize, item: (ValueId, IR), Ghost(base): Ghost<u32>)
        requires
            old(self).inv(base),
            item.0.0 >= base,
            item.0.0 < old(self).next_id,
            is_sync_instruction(item.1),
        ensures
            final(self).grew(old(self), base),
            final(self).next_id == old(self).next_id,
            final(self).images == old(self).images,
            final(self).buffers == old(self).buffers,
            final(self).no_access_id == old(self).no_access_id,
            final(self).emitted_memory == old(self).emitted_memory,
            final(self).host_write_id == old(self).host_write_id,
            final(self).read_access_ids == old(self).read_access_ids,
            at <= old(self).result@.len() ==> final(self).result@ == old(self).result@.insert(at as int, item),
            writes_prepared(old(self).result@) ==> writes_prepared(final(self).result@),
            at > old(self).result@.len() ==> final(self).result@ == old(self).result@,
    {
        if at <= self.result.len() {
            let ghost before = self.result@;
            self.result.insert(at, item);
            proof {
                if writes_prepared(before) {
                    lemma_prepared_insert(before, at as int, item);
                }
                lemma_filter_insert_dropped(before, at as int, item, recorded_before(base));
                assert forall|k: int| 0 <= k < self.result@.len() implies (#[trigger] self.result@[k]).0.0 < self.next_id by {
                    if k < at {
                        assert(self.result@[k] == before[k]);
                    } else if k > at {
                        assert(self.result@[k] == before[k - 1]);
                    }
                }
                assert forall|k: int|
                    0 <= k < self.result@.len() && (#[trigger] self.result@[k]).0.0 >= base implies is_sync_instruction(
                    self.result@[k].1,
                ) by {
                    if k < at {
                        assert(self.result@[k] == before[k]);
                    } else if k > at {
                        assert(self.result@[k] == before[k - 1]);
                    }
                }
            }
        }
    }

    /// Brings the arms of a selection back into agreement before control joins at its merge:
    /// the state the join takes on is the first arm's where every way in is an arm, the state
    /// the selection was entered with where control can also fall straight through, and every
    /// other arm gets the barriers that move each resource still named past the join from
    /// where that arm left it to there. Resources are taken in the order of their ids, and two
    /// buffers caught up from the same access to the same access share one barrier.
    fn join_arms(
        &mut self,
        construct: Construct,
        predecessors: usize,
        live: &Vec<ValueId>,
        Ghost(base): Ghost<u32>,
    ) -> (r: Option<()>)
        requires
            old(self).inv(base),
        ensures
            final(self).grew(old(self), base),
            final(self).no_access_id == old(self).no_access_id,
            r is None ==> final(self).next_id == u32::MAX,
            writes_prepared(old(self).result@) ==> writes_prepared(final(self).result@),
            r is Some ==> final(self).images@ == (if construct.arms@.len() > 0 && construct.arms@.len() == predecessors {
                construct.arms@[0].images@
            } else {
                construct.entry_images@
            }),
            r is Some ==> final(self).buffers@ == (if construct.arms@.len() > 0 && construct.arms@.len() == predecessors {
                construct.arms@[0].buffers@
            } else {
                construct.entry_buffers@
            }),
    {
        let Construct { merge: _, entry_images, entry_buffers, arms } = construct;
        let join_from_arm = arms.len() > 0 && arms.len() == predecessors;
        let (join_images, join_buffers) = if join_from_arm {
            (copy_images(&arms[0].images), copy_buffers(&arms[0].buffers))
        } else {
            (copy_images(&entry_images), copy_buffers(&entry_buffers))
        };
        let mut live_images: Vec<(ValueId, ImageState)> = Vec::new();
        let mut i: usize = 0;
        while i < join_images.len()
            invariant
                writes_prepared(old(self).result@) ==> writes_prepared(self.result@),
                i <= join_images@.len(),
            decreases join_images@.len() - i,
        {
            if contains_id(live, join_images[i].0) {
                live_images.push(join_images[i]);
            }
            i = i + 1;
        }
        let images = sorted_by_id(live_images);
        let mut live_buffers: Vec<(ValueId, BufferState)> = Vec::new();
        let mut i: usize = 0;
        while i < join_buffers.len()
            invariant
                writes_prepared(old(self).result@) ==> writes_prepared(self.result@),
                i <= join_buffers@.len(),
            decreases join_buffers@.len() - i,
        {
            if contains_id(live, join_buffers[i].0) {
                live_buffers.push(join_buffers[i]);
            }
            i = i + 1;
        }
        let buffers = sorted_by_id(live_buffers);
        let first_to_patch: usize = if join_from_arm { 1 } else { 0 };
        let undefined = ImageState { layout: LAYOUT_UNDEFINED, last_access: self.no_access_id, access: 0 };
        let mut a: usize = arms.len();
        while a > first_to_patch
            invariant
                writes_prepared(old(self).result@) ==> writes_prepared(self.result@),
                first_to_patch <= a <= arms@.len(),
                self.inv(base),
                self.result@.filter(recorded_before(base)) == old(self).result@.filter(recorded_before(base)),
                self.result@.len() >= old(self).result@.len(),
                self.next_id >= old(self).next_id,
                self.no_access_id == old(self).no_access_id,
            decreases a,
        {
            a = a - 1;
            let arm = &arms[a];
            let mut barriers: Vec<(ValueId, IR)> = Vec::new();
            let mut k: usize = 0;
            while k < images.len()
                invariant
                    writes_prepared(old(self).result@) ==> writes_prepared(self.result@),
                    k <= images@.len(),
                    self.inv(base),
                    self.result@.filter(recorded_before(base)) == old(self).result@.filter(recorded_before(base)),
                    self.result@.len() >= old(self).result@.len(),
                    self.next_id >= old(self).next_id,
                    self.no_access_id == old(self).no_access_id,
                    forall|j: int| 0 <= j < barriers@.len() ==> (#[trigger] barriers@[j]).0.0 >= base
                        && barriers@[j].0.0 < self.next_id && is_sync_instruction(barriers@[j].1),
                decreases images@.len() - k,
            {
                let (resource, target) = images[k];
                let current = match find_image(&arm.images, resource) {
                    Some(state) => state,
                    None => match find_image(&entry_images, resource) {
                        Some(state) => state,
                        None => undefined,
                    },
                };
                if !(current.layout == target.layout && current.access == target.access) {
                    let id = match self.allocate(Ghost(base)) {
                        Some(id) => id,
                        None => return None,
                    };
                    barriers.push(
                        (
                            id,
                            IR::ImageBarrier {
                                src_access: current.last_access,
                                dst_access: target.last_access,
                                old_layout: current.layout,
                                new_layout: target.layout,
                                value: resource,
                            },
                        ),
                    );
                }
                k = k + 1;
            }
            let mut emitted: Vec<(u32, u32)> = Vec::new();
            let mut k: usize = 0;
            while k < buffers.len()
                invariant
                    writes_prepared(old(self).result@) ==> writes_prepared(self.result@),
                    k <= buffers@.len(),
                    self.inv(base),
                    self.result@.filter(recorded_before(base)) == old(self).result@.filter(recorded_before(base)),
                    self.result@.len() >= old(self).result@.len(),
                    self.next_id >= old(self).next_id,
                    self.no_access_id == old(self).no_access_id,
                    forall|j: int| 0 <= j < barriers@.len() ==> (#[trigger] barriers@[j]).0.0 >= base
                        && barriers@[j].0.0 < self.next_id && is_sync_instruction(barriers@[j].1),
                decreases buffers@.len() - k,
            {
                let (buffer, target) = buffers[k];
                let current = match find_buffer(&arm.buffers, buffer) {
                    Some(state) => state,
                    None => BufferState { last_access: undefined.last_access, access: 0 },
                };
                k = k + 1;
                if current.access == target.access || current.access == 0 {
                    continue;
                }
                let mut seen = false;
                let mut e: usize = 0;
                while e < emitted.len()
                    invariant
                        writes_prepared(old(self).result@) ==> writes_prepared(self.result@),
                        e <= emitted@.len(),
                    decreases emitted@.len() - e,
                {
                    if emitted[e].0 == current.access && emitted[e].1 == target.access {
                        seen = true;
                    }
                    e = e + 1;
                }
                if seen {
                    continue;
                }
                emitted.push((current.access, target.access));
                let id = match self.allocate(Ghost(base)) {
                    Some(id) => id,
                    None => return None,
                };
                barriers.push((id, IR::MemoryBarrier { src_access: current.last_access, dst_access: target.last_access }));
            }
            let at = arm.at;
            let mut barriers = barriers;
            while barriers.len() > 0
                invariant
                    writes_prepared(old(self).result@) ==> writes_prepared(self.result@),
                    self.inv(base),
                    self.result@.filter(recorded_before(base)) == old(self).result@.filter(recorded_before(base)),
                    self.result@.len() >= old(self).result@.len(),
                    self.next_id >= old(self).next_id,
                    self.no_access_id == old(self).no_access_id,
                    forall|q: int| 0 <= q < barriers@.len() ==> (#[trigger] barriers@[q]).0.0 >= base
                        && barriers@[q].0.0 < self.next_id && is_sync_instruction(barriers@[q].1),
                decreases barriers@.len(),
            {
                let item = barriers.pop().unwrap();
                self.insert_at(at, item, Ghost(base));
            }
        }
        self.images = join_images;
        self.buffers = join_buffers;
        Some(())
    }
}

/// The access constants of `s`, each under its id, in order.
pub open spec fn access_values_spec(s: Seq<(ValueId, IR)>) -> Seq<(ValueId, u32)>
    decreases s.len(),
{
    if s.len() == 0 {
        Seq::empty()
    } else {
        match s.last().1 {
            IR::Constant(Constant::Access(a)) => access_values_spec(s.drop_last()).push((s.last().0, a.0)),
            _ => access_values_spec(s.drop_last()),
        }
    }
}

/// The access bits of every access constant among `nodes`, by id.
fn access_values(nodes: &Vec<(ValueId, IR)>) -> (r: Vec<(ValueId, u32)>)
    ensures
        r@ == access_values_spec(nodes@),
{
    let mut values: Vec<(ValueId, u32)> = Vec::new();
    let mut i: usize = 0;
    while i < nodes.len()
        invariant
            i <= nodes@.len(),
            values@ == access_values_spec(nodes@.take(i as int)),
        decreases nodes@.len() - i,
    {
        proof {
            assert(nodes@.take(i + 1).drop_last() =~= nodes@.take(i as int));
        }
        if let IR::Constant(Constant::Access(a)) = &nodes[i].1 {
            values.push((nodes[i].0, a.0));
        }
        i = i + 1;
    }
    proof {
        assert(nodes@.take(i as int) =~= nodes@);
    }
    values
}

/// Each label of `s`, in order, with how many ways of `all` lead into it.
pub open spec fn label_counts(s: Seq<(ValueId, IR)>, all: Seq<(ValueId, IR)>) -> Seq<(LabelId, usize)>
    decreases s.len(),
{
    if s.len() == 0 {
        Seq::empty()
    } else {
        match s.last().1 {
            IR::Label { label } => label_counts(s.drop_last(), all).push((label, saturated(ways(all, label)))),
            _ => label_counts(s.drop_last(), all),
        }
    }
}

/// How many ways lead into each label of `nodes`.
fn predecessor_counts(nodes: &Vec<(ValueId, IR)>) -> (r: Vec<(LabelId, usize)>)
    ensures
        r@ == label_counts(nodes@, nodes@),
{
    let mut counts: Vec<(LabelId, usize)> = Vec::new();
    let mut i: usize = 0;
    while i < nodes.len()
        invariant
            i <= nodes@.len(),
            counts@ == label_counts(nodes@.take(i as int), nodes@),
        decreases nodes@.len() - i,
    {
        proof {
            assert(nodes@.take(i + 1).drop_last() =~= nodes@.take(i as int));
        }
        if let IR::Label { label } = &nodes[i].1 {
            counts.push((*label, ways_in(nodes, *label)));
        }
        i = i + 1;
    }
    proof {
        assert(nodes@.take(i as int) =~= nodes@);
    }
    counts
}

fn count_at(counts: &Vec<(LabelId, usize)>, label: LabelId) -> (r: usize)
    ensures
        (exists|i: int|
            0 <= i < counts@.len() && (#[trigger] counts@[i]) == (label, r) && (forall|j: int|
                0 <= j < i ==> (#[trigger] counts@[j]).0 != label)) || ((forall|j: int|
            0 <= j < counts@.len() ==> (#[trigger] counts@[j]).0 != label) && r == 0),
{
    let mut i: usize = 0;
    while i < counts.len()
        invariant
            i <= counts@.len(),
            forall|j: int| 0 <= j < i ==> (#[trigger] counts@[j]).0 != label,
        decreases counts@.len() - i,
    {
        if counts[i].0 == label {
            proof {
                assert(counts@[i as int] == (label, counts@[i as int].1));
            }
            return counts[i].1;
        }
        i = i + 1;
    }
    0
}

impl Syncer {
    /// Synchronizes the resources a region reaches before it opens: the images its descriptor
    /// writes sample, then what it declared it reaches, buffers by a memory barrier and images
    /// by a transition, then the buffers its vertex and index binds read.
    fn open_region(
        &mut self,
        instrs: &Vec<IR>,
        values: &Vec<(ValueId, u32)>,
        sampled: Vec<(ValueId, u32)>,
        attachments: &Vec<(ValueId, ValueId)>,
        bound: Vec<(ValueId, u32)>,
        Ghost(base): Ghost<u32>,
    ) -> (r: Option<()>)
        requires
            old(self).inv(base),
        ensures
            appended_sync(old(self).result@, final(self).result@),
            final(self).grew(old(self), base),
            final(self).no_access_id == old(self).no_access_id,
            r is None ==> final(self).next_id == u32::MAX || exists|k: int|
                0 <= k < attachments@.len() && lookup(values@, (#[trigger] attachments@[k]).1) is None,
    {
        let mut i: usize = 0;
        while i < sampled.len()
            invariant
                i <= sampled@.len(),
                self.grew(old(self), base),
                self.no_access_id == old(self).no_access_id,
                appended_sync(old(self).result@, self.result@),
            decreases sampled@.len() - i,
        {
            let (image, bits) = sampled[i];
            let id = match self.read_access(bits, Ghost(base)) {
                Some(id) => id,
                None => return None,
            };
            if self.transition(instrs, image, id, bits, Ghost(base)).is_none() {
                return None;
            }
            i = i + 1;
        }
        let mut i: usize = 0;
        while i < attachments.len()
            invariant
                i <= attachments@.len(),
                self.grew(old(self), base),
                self.no_access_id == old(self).no_access_id,
                appended_sync(old(self).result@, self.result@),
            decreases attachments@.len() - i,
        {
            let (resource, access_id) = attachments[i];
            let bits = match access_of(values, access_id) {
                Some(bits) => bits,
                None => {
                    proof {
                        assert(lookup(values@, attachments@[i as int].1) is None);
                    }
                    return None;
                },
            };
            if is_buffer(instrs, resource) {
                if self.buffer_barrier(resource_root(instrs, resource), bits, Ghost(base)).is_none() {
                    return None;
                }
            } else {
                let id = if Access(bits).writes() {
                    self.emit_access(bits, Ghost(base))
                } else {
                    self.read_access(bits, Ghost(base))
                };
                let id = match id {
                    Some(id) => id,
                    None => return None,
                };
                if self.transition(instrs, resource, id, bits, Ghost(base)).is_none() {
                    return None;
                }
            }
            i = i + 1;
        }
        let mut i: usize = 0;
        while i < bound.len()
            invariant
                i <= bound@.len(),
                self.grew(old(self), base),
                self.no_access_id == old(self).no_access_id,
                appended_sync(old(self).result@, self.result@),
            decreases bound@.len() - i,
        {
            let (buffer, bits) = bound[i];
            if self.buffer_barrier(buffer, bits, Ghost(base)).is_none() {
                return None;
            }
            i = i + 1;
        }
        Some(())
    }

    /// Synchronizes what one instruction does to the resources it reaches, ahead of it.
    fn before(
        &mut self,
        instrs: &Vec<IR>,
        values: &Vec<(ValueId, u32)>,
        value_id: ValueId,
        ir: &IR,
        Ghost(base): Ghost<u32>,
    ) -> (r: Option<()>)
        requires
            old(self).inv(base),
        ensures
            appended_sync(old(self).result@, final(self).result@),
            final(self).grew(old(self), base),
            final(self).no_access_id == old(self).no_access_id,
            r is None ==> final(self).next_id == u32::MAX || names_missing_access(*ir, values@),
            r is Some ==> !names_missing_access(*ir, values@),
            r is Some ==> (image_write(*ir) matches Some(t) ==> exists|q: int|
                old(self).result@.len() <= q < final(self).result@.len() && barrier_into(
                    #[trigger] final(self).result@[q].1,
                    t.0,
                    t.1,
                )),
            r is Some ==> (*ir matches IR::ConstructImage { initial_layout, .. } ==> lookup(final(self).images@, value_id)
                == Some(ImageState { layout: initial_layout, last_access: old(self).no_access_id, access: 0 })),
    {
        match ir {
            IR::ConstructImage { initial_layout, .. } => {
                let state = ImageState { layout: *initial_layout, last_access: self.no_access_id, access: 0 };
                store_image(&mut self.images, value_id, state);
            },
            IR::ConstructBuffer { initial_access, .. } => {
                let bits = match access_of(values, *initial_access) {
                    Some(bits) => bits,
                    None => return None,
                };
                let last_access = match self.resting_access(bits, Ghost(base)) {
                    Some(id) => id,
                    None => return None,
                };
                store_buffer(&mut self.buffers, value_id, BufferState { last_access, access: bits });
            },
            IR::Acquire { resource, access } => {
                let bits = match access_of(values, *access) {
                    Some(bits) => bits,
                    None => return None,
                };
                return self.transition(instrs, *resource, *access, bits, Ghost(base));
            },
            IR::Release { resource, access, .. } => {
                let bits = match access_of(values, *access) {
                    Some(bits) => bits,
                    None => return None,
                };
                return self.transition(instrs, *resource, *access, bits, Ghost(base));
            },
            IR::Clear { attachment, .. } => {
                let id = match self.emit_access(ACCESS_CLEAR, Ghost(base)) {
                    Some(id) => id,
                    None => return None,
                };
                let ghost mid = self.result@;
                let r = self.transition(instrs, *attachment, id, ACCESS_CLEAR, Ghost(base));
                proof {
                    assert(ACCESS_CLEAR & ACCESS_WRITES != 0) by (bit_vector);
                    if r is Some {
                        lemma_write_transition(mid, self.result@, *attachment, ACCESS_CLEAR);
                    }
                }
                return r;
            },
            IR::Blit { src, dst, .. } => {
                let read_id = match self.emit_access(ACCESS_BLIT_READ, Ghost(base)) {
                    Some(id) => id,
                    None => return None,
                };
                if self.transition(instrs, *src, read_id, ACCESS_BLIT_READ, Ghost(base)).is_none() {
                    return None;
                }
                let write_id = match self.emit_access(ACCESS_BLIT_WRITE, Ghost(base)) {
                    Some(id) => id,
                    None => return None,
                };
                let ghost mid = self.result@;
                let r = self.transition(instrs, *dst, write_id, ACCESS_BLIT_WRITE, Ghost(base));
                proof {
                    assert(ACCESS_BLIT_WRITE & ACCESS_WRITES != 0) by (bit_vector);
                    if r is Some {
                        lemma_write_transition(mid, self.result@, *dst, ACCESS_BLIT_WRITE);
                    }
                }
                return r;
            },
            IR::CopyBufferToImage { buffer, image, .. } => {
                if self.buffer_barrier(resource_root(instrs, *buffer), ACCESS_COPY_READ, Ghost(base)).is_none() {
                    return None;
                }
                let write_id = match self.emit_access(ACCESS_COPY_WRITE, Ghost(base)) {
                    Some(id) => id,
                    None => return None,
                };
                let ghost mid = self.result@;
                let r = self.transition(instrs, *image, write_id, ACCESS_COPY_WRITE, Ghost(base));
                proof {
                    assert(ACCESS_COPY_WRITE & ACCESS_WRITES != 0) by (bit_vector);
                    if r is Some {
                        lemma_write_transition(mid, self.result@, *image, ACCESS_COPY_WRITE);
                    }
                }
                return r;
            },
            IR::Dispatch { size: DispatchSize::Indirect { buffer, .. }, .. } => {
                return self.buffer_barrier(resource_root(instrs, *buffer), ACCESS_INDIRECT_READ, Ghost(base));
            },
            _ => {},
        }
        Some(())
    }
}

/// An instruction whose access operand names no access constant of `values`.
pub open spec fn names_missing_access(ir: IR, values: Seq<(ValueId, u32)>) -> bool {
    match ir {
        IR::ConstructBuffer { initial_access, .. } => lookup(values, initial_access) is None,
        IR::Acquire { access, .. } | IR::Release { access, .. } => lookup(values, access) is None,
        _ => false,
    }
}

/// An instruction one of whose access operands names no access constant of `values`: the
/// access a buffer starts at, an acquire's, a release's, a descriptor write's, or that of an
/// attachment of a region.
pub open spec fn misses_access(ir: IR, values: Seq<(ValueId, u32)>) -> bool {
    ||| names_missing_access(ir, values)
    ||| unnamed_write(ir, values)
    ||| exists|k: int| 0 <= k < region_attachments(ir).len() && lookup(values, (#[trigger] region_attachments(ir)[k]).1) is None
}

/// The attachments of a region's opening, with the accesses they are declared at.
pub open spec fn region_attachments(ir: IR) -> Seq<(ValueId, ValueId)> {
    match ir {
        IR::BeginRendering { attachments, .. } => attachments@,
        IR::BeginCompute { attachments, .. } => attachments@,
        _ => Seq::empty(),
    }
}

/// Whether some instruction of `nodes` names an access that is no access constant of `values`.
fn misses_any_access(nodes: &Vec<(ValueId, IR)>, values: &Vec<(ValueId, u32)>) -> (r: bool)
    ensures
        r == exists|k: int| 0 <= k < nodes@.len() && #[trigger] misses_access(nodes@[k].1, values@),
{
    let mut i: usize = 0;
    while i < nodes.len()
        invariant
            i <= nodes@.len(),
            forall|k: int| 0 <= k < i ==> !#[trigger] misses_access(nodes@[k].1, values@),
        decreases nodes@.len() - i,
    {
        match &nodes[i].1 {
            IR::ConstructBuffer { initial_access, .. } => {
                if access_of(values, *initial_access).is_none() {
                    assert(misses_access(nodes@[i as int].1, values@));
                    return true;
                }
            },
            IR::Acquire { access, .. } => {
                if access_of(values, *access).is_none() {
                    assert(misses_access(nodes@[i as int].1, values@));
                    return true;
                }
            },
            IR::Release { access, .. } => {
                if access_of(values, *access).is_none() {
                    assert(misses_access(nodes@[i as int].1, values@));
                    return true;
                }
            },
            IR::WriteDescriptor { access, .. } => {
                if access_of(values, *access).is_none() {
                    assert(misses_access(nodes@[i as int].1, values@));
                    return true;
                }
            },
            IR::BeginRendering { attachments, .. } | IR::BeginCompute { attachments, .. } => {
                let mut a: usize = 0;
                while a < attachments.len()
                    invariant
                        a <= attachments@.len(),
                        i < nodes@.len(),
                        nodes@[i as int].1 is BeginRendering && nodes@[i as int].1->BeginRendering_attachments == *attachments
                            || nodes@[i as int].1 is BeginCompute && nodes@[i as int].1->BeginCompute_attachments
                            == *attachments,
                        forall|k: int| 0 <= k < a ==> lookup(values@, (#[trigger] attachments@[k]).1) is Some,
                    decreases attachments@.len() - a,
                {
                    if access_of(values, attachments[a].1).is_none() {
                        proof {
                            let k = a as int;
                            assert(region_attachments(nodes@[i as int].1) == attachments@);
                            assert(lookup(values@, region_attachments(nodes@[i as int].1)[k].1) is None);
                        }
                        assert(misses_access(nodes@[i as int].1, values@));
                        return true;
                    }
                    a = a + 1;
                }
            },
            _ => {},
        }
        i = i + 1;
    }
    false
}

/// Inserts the barriers and layout transitions a program needs between the instructions that
/// reach its resources, with the access constants they wait on, under ids from `next_id` on.
/// Nothing recorded is dropped, moved or changed: the program is the one given with only
/// synchronization instructions added. Fails with a missing access exactly where an access
/// operand names no access constant, and where the ids run out otherwise.
pub fn sync(instrs: &Vec<IR>, nodes: Vec<(ValueId, IR)>, next_id: u32) -> (r: Result<(Vec<(ValueId, IR)>, u32), CompileError>)
    requires
        forall|k: int| 0 <= k < nodes@.len() ==> (#[trigger] nodes@[k]).0.0 < next_id,
    ensures
        (r == Err::<(Vec<(ValueId, IR)>, u32), CompileError>(CompileError::MissingAccess)) <==> exists|k: int|
            0 <= k < nodes@.len() && #[trigger] misses_access(nodes@[k].1, access_values_spec(nodes@)),
        r is Err ==> r == Err::<(Vec<(ValueId, IR)>, u32), CompileError>(CompileError::MissingAccess) || r == Err::<
            (Vec<(ValueId, IR)>, u32),
            CompileError,
        >(CompileError::IdsExhausted),
        r matches Ok((out, next)) ==> {
            &&& next >= next_id
            &&& only_sync_added(nodes@, out@, next_id)
            &&& forall|k: int| 0 <= k < out@.len() ==> (#[trigger] out@[k]).0.0 < next
            &&& writes_prepared(out@)
            &&& forall|k: int| 0 <= k < nodes@.len() ==> !names_missing_access(
                (#[trigger] nodes@[k]).1,
                access_values_spec(nodes@),
            )
        },
{
    let ghost base = next_id;
    let values = access_values(&nodes);
    if misses_any_access(&nodes, &values) {
        return Err(CompileError::MissingAccess);
    }
    let predecessors = predecessor_counts(&nodes);
    let live = live_after(instrs, &nodes);
    let (region_images, region_buffers) = match region_uses(instrs, &nodes, &values) {
        Some(uses) => uses,
        None => return Err(CompileError::IdsExhausted),
    };
    let ghost all = nodes@;
    let mut rest = reversed(nodes);
    let mut syncer = Syncer {
        result: Vec::new(),
        images: Vec::new(),
        buffers: Vec::new(),
        emitted_memory: Vec::new(),
        no_access_id: ValueId(0),
        host_write_id: None,
        read_access_ids: Vec::new(),
        next_id,
    };
    proof {
        assert(syncer.result@.filter(recorded_before(base)) =~= Seq::<(ValueId, IR)>::empty());
        assert(all.subrange(0, 0) =~= Seq::<(ValueId, IR)>::empty());
    }
    let no_access_id = match syncer.emit_access(0, Ghost(base)) {
        Some(id) => id,
        None => return Err(CompileError::IdsExhausted),
    };
    syncer.no_access_id = no_access_id;
    let mut constructs: Vec<Construct> = Vec::new();
    while rest.len() > 0
        invariant
            syncer.inv(base),
            rest@.len() <= all.len(),
            forall|i: int| 0 <= i < rest@.len() ==> #[trigger] rest@[i] == all[all.len() - 1 - i],
            forall|k: int| 0 <= k < all.len() ==> (#[trigger] all[k]).0.0 < base,
            syncer.result@.filter(recorded_before(base)) == all.subrange(0, all.len() - rest@.len()),
            writes_prepared(syncer.result@),
            values@ == access_values_spec(all),
            forall|k: int| 0 <= k < all.len() - rest@.len() ==> !names_missing_access((#[trigger] all[k]).1, values@),
            forall|k: int| 0 <= k < all.len() ==> !#[trigger] misses_access(all[k].1, values@),
            !exists|k: int| 0 <= k < nodes@.len() && #[trigger] misses_access(nodes@[k].1, access_values_spec(nodes@)),
        decreases rest@.len(),
    {
        let ghost done = all.len() - rest@.len();
        let (value_id, ir) = rest.pop().unwrap();
        assert((value_id, ir) == all[done]);
        syncer.emitted_memory = Vec::new();
        let ghost before_step = syncer.result@.filter(recorded_before(base));
        let ghost step_start = syncer.result@;
        match &ir {
            IR::SelectionMerge { merge } => {
                constructs.push(
                    Construct {
                        merge: *merge,
                        entry_images: copy_images(&syncer.images),
                        entry_buffers: copy_buffers(&syncer.buffers),
                        arms: Vec::new(),
                    },
                );
            },
            IR::Branch { target } => {
                if constructs.len() > 0 && constructs[constructs.len() - 1].merge == *target {
                    let mut top = constructs.pop().unwrap();
                    let images = copy_images(&top.entry_images);
                    let buffers = copy_buffers(&top.entry_buffers);
                    let mut arm_images = images;
                    std::mem::swap(&mut arm_images, &mut syncer.images);
                    let mut arm_buffers = buffers;
                    std::mem::swap(&mut arm_buffers, &mut syncer.buffers);
                    top.arms.push(Arm { at: syncer.result.len(), images: arm_images, buffers: arm_buffers });
                    constructs.push(top);
                }
            },
            IR::Label { label } => {
                if constructs.len() > 0 && constructs[constructs.len() - 1].merge == *label {
                    let construct = constructs.pop().unwrap();
                    let ways = count_at(&predecessors, *label);
                    let live_here = live_at(&live, *label);
                    if syncer.join_arms(construct, ways, &live_here, Ghost(base)).is_none() {
                        return Err(CompileError::IdsExhausted);
                    }
                }
            },
            IR::BeginRendering { attachments, .. } => {
                let sampled = uses_of(&region_images, value_id);
                let bound = uses_of(&region_buffers, value_id);
                if syncer.open_region(instrs, &values, sampled, attachments, bound, Ghost(base)).is_none() {
                    return Err(CompileError::IdsExhausted);
                }
                proof {
                    lemma_prepared_appended(step_start, syncer.result@);
                }
            },
            IR::BeginCompute { attachments, .. } => {
                let sampled = uses_of(&region_images, value_id);
                if syncer.open_region(instrs, &values, sampled, attachments, Vec::new(), Ghost(base)).is_none() {
                    return Err(CompileError::IdsExhausted);
                }
                proof {
                    lemma_prepared_appended(step_start, syncer.result@);
                }
            },
            _ => {
                if syncer.before(instrs, &values, value_id, &ir, Ghost(base)).is_none() {
                    return Err(CompileError::IdsExhausted);
                }
                proof {
                    lemma_prepared_appended(step_start, syncer.result@);
                }
            },
        }
        let ghost mid = syncer.result@;
        syncer.result.push((value_id, ir));
        proof {
            assert(!names_missing_access(all[done].1, values@));
            if image_write(ir) is Some {
                let t = image_write(ir)->0;
                let q = choose|q: int| step_start.len() <= q < mid.len() && barrier_into(#[trigger] mid[q].1, t.0, t.1);
                assert(barrier_into(mid[q].1, t.0, t.1));
            }
            lemma_prepared_push(mid, (value_id, ir));
            lemma_filter_push(mid, (value_id, ir), recorded_before(base));
            assert(all.subrange(0, done + 1) =~= all.subrange(0, done).push(all[done]));
            assert forall|k: int| 0 <= k < syncer.result@.len() implies (#[trigger] syncer.result@[k]).0.0 < syncer.next_id by {
                if k < mid.len() {
                    assert(syncer.result@[k] == mid[k]);
                }
            }
            assert forall|k: int|
                0 <= k < syncer.result@.len() && (#[trigger] syncer.result@[k]).0.0 >= base implies is_sync_instruction(
                syncer.result@[k].1,
            ) by {
                if k < mid.len() {
                    assert(syncer.result@[k] == mid[k]);
                }
            }
        }
    }
    proof {
        assert(all.subrange(0, all.len() as int) =~= all);
    }
    let next = syncer.next_id;
    Ok((syncer.result, next))
}

} // verus!
