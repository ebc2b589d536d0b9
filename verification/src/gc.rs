use std::marker::PhantomData;
use std::rc::Rc;
use vstd::prelude::*;

verus! {

/// A value that holds handles into a heap: marking follows them, and dropping the
/// value releases them. An implementation reports in `trace` exactly the handles that
/// `handles` names; the heap's contracts hold for implementations that keep to this.
pub trait Trace {
    /// The slots of the heap this value holds handles to, in order.
    spec fn handles(&self) -> Seq<usize>;

    /// The slots of the heap this value holds handles to.
    fn trace(&self) -> (r: Vec<usize>)
        ensures
            r@ == self.handles(),
    ;
}

/// A handle to a value on a `GcHeap`: the slot that holds it.
pub struct Gc<T> {
    index: usize,
    marker: PhantomData<T>,
}

impl<T> Gc<T> {
    /// The slot this handle refers to.
    pub closed spec fn slot(&self) -> usize {
        self.index
    }

    /// The slot this handle refers to.
    pub fn index(&self) -> (r: usize)
        ensures
            r == self.slot(),
    {
        self.index
    }
}

impl<T> Trace for Gc<T> {
    open spec fn handles(&self) -> Seq<usize> {
        seq![self.slot()]
    }

    fn trace(&self) -> (r: Vec<usize>) {
        vec![self.index]
    }
}

impl Trace for () {
    open spec fn handles(&self) -> Seq<usize> {
        Seq::empty()
    }

    fn trace(&self) -> (r: Vec<usize>) {
        Vec::new()
    }
}

impl Trace for bool {
    open spec fn handles(&self) -> Seq<usize> {
        Seq::empty()
    }

    fn trace(&self) -> (r: Vec<usize>) {
        Vec::new()
    }
}

impl Trace for u8 {
    open spec fn handles(&self) -> Seq<usize> {
        Seq::empty()
    }

    fn trace(&self) -> (r: Vec<usize>) {
        Vec::new()
    }
}

impl Trace for usize {
    open spec fn handles(&self) -> Seq<usize> {
        Seq::empty()
    }

    fn trace(&self) -> (r: Vec<usize>) {
        Vec::new()
    }
}

impl Trace for String {
    open spec fn handles(&self) -> Seq<usize> {
        Seq::empty()
    }

    fn trace(&self) -> (r: Vec<usize>) {
        Vec::new()
    }
}

impl<T: Trace> Trace for Rc<T> {
    open spec fn handles(&self) -> Seq<usize> {
        (**self).handles()
    }

    fn trace(&self) -> (r: Vec<usize>) {
        (**self).trace()
    }
}

/// The handles of the items of `items`, item after item.
pub open spec fn handles_of<T: Trace>(items: Seq<T>) -> Seq<usize>
    decreases items.len(),
{
    if items.len() == 0 {
        Seq::empty()
    } else {
        handles_of(items.drop_last()) + items.last().handles()
    }
}

impl<T: Trace> Trace for Vec<T> {
    open spec fn handles(&self) -> Seq<usize> {
        handles_of(self@)
    }

    fn trace(&self) -> (r: Vec<usize>) {
        let mut out: Vec<usize> = Vec::new();
        let mut i: usize = 0;
        while i < self.len()
            invariant
                0 <= i <= self@.len(),
                out@ == handles_of(self@.take(i as int)),
            decreases self@.len() - i,
        {
            let mut hs = self[i].trace();
            proof {
                assert(self@.take(i + 1).drop_last() =~= self@.take(i as int));
            }
            out.append(&mut hs);
            i = i + 1;
        }
        proof {
            assert(self@.take(i as int) =~= self@);
        }
        out
    }
}

/// One slot of a heap: the value (gone once dropped), the number of handles to it,
/// whether the last marking reached it, and whether its value was dropped.
pub struct Slot<T> {
    pub value: Option<T>,
    pub ref_count: usize,
    pub accessed: bool,
    pub dropped: bool,
}

/// Whether a slot holds a value that was not dropped.
pub open spec fn is_live<T>(s: Option<Slot<T>>) -> bool {
    s matches Some(slot) && !slot.dropped
}

/// Whether a slot holds a live value that marking has not reached.
pub open spec fn is_unmarked<T>(s: Option<Slot<T>>) -> bool {
    s matches Some(slot) && !slot.dropped && !slot.accessed
}

/// `slot` with one more handle.
pub open spec fn with_one_more_handle<T>(slot: Slot<T>) -> Slot<T> {
    Slot {
        value: slot.value,
        ref_count: (slot.ref_count + 1) as usize,
        accessed: slot.accessed,
        dropped: slot.dropped,
    }
}

/// Whether a slot holds a value that marking reached.
pub open spec fn is_marked<T>(s: Option<Slot<T>>) -> bool {
    s matches Some(slot) && slot.accessed
}

/// The number of live slots.
pub open spec fn live_count<T>(s: Seq<Option<Slot<T>>>) -> nat
    decreases s.len(),
{
    if s.len() == 0 {
        0
    } else {
        live_count(s.drop_last()) + if is_live(s.last()) {
            1nat
        } else {
            0nat
        }
    }
}

/// The number of live slots that marking has not reached.
pub open spec fn unmarked_count<T>(s: Seq<Option<Slot<T>>>) -> nat
    decreases s.len(),
{
    if s.len() == 0 {
        0
    } else {
        unmarked_count(s.drop_last()) + if is_unmarked(s.last()) {
            1nat
        } else {
            0nat
        }
    }
}

/// Changing one slot changes the number of live slots by what that slot counted.
pub proof fn lemma_live_count_update<T>(s: Seq<Option<Slot<T>>>, i: int, v: Option<Slot<T>>)
    requires
        0 <= i < s.len(),
    ensures
        live_count(s.update(i, v)) + (if is_live(s[i]) {
            1int
        } else {
            0int
        }) == live_count(s) + (if is_live(v) {
            1int
        } else {
            0int
        }),
    decreases s.len(),
{
    if i < s.len() - 1 {
        assert(s.update(i, v).drop_last() =~= s.drop_last().update(i, v));
        lemma_live_count_update(s.drop_last(), i, v);
    } else {
        assert(s.update(i, v).drop_last() =~= s.drop_last());
    }
}

/// Changing one slot changes the number of unmarked slots by what that slot counted.
pub proof fn lemma_unmarked_count_update<T>(s: Seq<Option<Slot<T>>>, i: int, v: Option<Slot<T>>)
    requires
        0 <= i < s.len(),
    ensures
        unmarked_count(s.update(i, v)) + (if is_unmarked(s[i]) {
            1int
        } else {
            0int
        }) == unmarked_count(s) + (if is_unmarked(v) {
            1int
        } else {
            0int
        }),
    decreases s.len(),
{
    if i < s.len() - 1 {
        assert(s.update(i, v).drop_last() =~= s.drop_last().update(i, v));
        lemma_unmarked_count_update(s.drop_last(), i, v);
    } else {
        assert(s.update(i, v).drop_last() =~= s.drop_last());
    }
}

/// Releasing one handle to slot `id`: nothing happens to a free or dropped slot;
/// otherwise it has one handle less, and when that was the last one its value is
/// dropped and the handles the value held are released in turn (they are returned).
pub open spec fn release_step<T: Trace>(slots: Seq<Option<Slot<T>>>, id: usize) -> (Seq<
    Option<Slot<T>>,
>, Seq<usize>) {
    if id < slots.len() && is_live(slots[id as int]) {
        let s = slots[id as int]->0;
        if s.ref_count <= 1 {
            (
                slots.update(
                    id as int,
                    Some(Slot { value: None, ref_count: 0, accessed: s.accessed, dropped: true }),
                ),
                s.value->0.handles(),
            )
        } else {
            (
                slots.update(
                    id as int,
                    Some(
                        Slot {
                            value: s.value,
                            ref_count: (s.ref_count - 1) as usize,
                            accessed: s.accessed,
                            dropped: false,
                        },
                    ),
                ),
                Seq::empty(),
            )
        }
    } else {
        (slots, Seq::empty())
    }
}

/// Releasing every handle in `pending`, last first, with the cascade each dropped
/// value sets off.
pub open spec fn release_all<T: Trace>(slots: Seq<Option<Slot<T>>>, pending: Seq<usize>) -> Seq<
    Option<Slot<T>>,
>
    decreases live_count(slots), pending.len(),
{
    if pending.len() == 0 {
        slots
    } else {
        let id = pending.last();
        let (next, released) = release_step(slots, id);
        proof {
            if id < slots.len() && is_live(slots[id as int]) {
                lemma_live_count_update(slots, id as int, next[id as int]);
            }
        }
        release_all(next, pending.drop_last() + released)
    }
}

/// Marking slot `id`: a live slot that marking has not reached yet is marked, and the
/// handles its value holds are marked in turn (they are returned).
pub open spec fn mark_step<T: Trace>(slots: Seq<Option<Slot<T>>>, id: usize) -> (Seq<
    Option<Slot<T>>,
>, Seq<usize>) {
    if id < slots.len() && is_unmarked(slots[id as int]) {
        let s = slots[id as int]->0;
        (
            slots.update(
                id as int,
                Some(Slot { value: s.value, ref_count: s.ref_count, accessed: true, dropped: false }),
            ),
            s.value->0.handles(),
        )
    } else {
        (slots, Seq::empty())
    }
}

/// Marking every slot reachable from the handles in `pending`, last first.
pub open spec fn mark_all<T: Trace>(slots: Seq<Option<Slot<T>>>, pending: Seq<usize>) -> Seq<
    Option<Slot<T>>,
>
    decreases unmarked_count(slots), pending.len(),
{
    if pending.len() == 0 {
        slots
    } else {
        let id = pending.last();
        let (next, marked) = mark_step(slots, id);
        proof {
            if id < slots.len() && is_unmarked(slots[id as int]) {
                lemma_unmarked_count_update(slots, id as int, next[id as int]);
            }
        }
        mark_all(next, pending.drop_last() + marked)
    }
}

/// Sweeping the listed slots from position `i` on, with `kept` the slots kept so far:
/// a dropped value's slot is freed; a live value that marking did not reach is dropped
/// (releasing its handles) and its slot freed; a marked one is kept, unmarked.
pub open spec fn sweep_from<T: Trace>(
    slots: Seq<Option<Slot<T>>>,
    values: Seq<usize>,
    i: int,
    kept: Seq<usize>,
) -> (Seq<Option<Slot<T>>>, Seq<usize>)
    decreases values.len() - i,
{
    if i < 0 || i >= values.len() {
        (slots, kept)
    } else {
        let id = values[i] as int;
        if 0 <= id < slots.len() && slots[id] is Some {
            let s = slots[id]->0;
            if s.dropped {
                sweep_from(slots.update(id, None), values, i + 1, kept)
            } else if !s.accessed {
                let zombie = slots.update(
                    id,
                    Some(Slot { value: None, ref_count: s.ref_count, accessed: false, dropped: true }),
                );
                let released = release_all(zombie, s.value->0.handles());
                sweep_from(released.update(id, None), values, i + 1, kept)
            } else {
                sweep_from(
                    slots.update(
                        id,
                        Some(
                            Slot {
                                value: s.value,
                                ref_count: s.ref_count,
                                accessed: false,
                                dropped: false,
                            },
                        ),
                    ),
                    values,
                    i + 1,
                    kept.push(id as usize),
                )
            }
        } else {
            sweep_from(slots, values, i + 1, kept)
        }
    }
}

/// The handles the value in a slot holds (none for a free slot or a dropped value).
pub open spec fn slot_handles<T: Trace>(s: Option<Slot<T>>) -> Seq<usize> {
    match s {
        Some(slot) => match slot.value {
            Some(v) => v.handles(),
            None => Seq::empty(),
        },
        None => Seq::empty(),
    }
}

/// The slot was marked between `before` and `after`.
pub open spec fn newly_marked<T>(before: Seq<Option<Slot<T>>>, after: Seq<Option<Slot<T>>>, id: int) -> bool {
    is_marked(after[id]) && !is_marked(before[id])
}

/// Slot `h` holds no live value, or it is marked, or it waits in `pending`.
pub open spec fn reached_or_pending<T>(slots: Seq<Option<Slot<T>>>, pending: Seq<usize>, h: usize) -> bool {
    ||| !(h < slots.len() && is_live(slots[h as int]))
    ||| slots[h as int]->0.accessed
    ||| pending.contains(h)
}

/// `after` is `before` marked from `root`: the root is marked if it is live, and every
/// newly marked value's live handles are marked.
pub open spec fn marked_from<T: Trace>(before: Seq<Option<Slot<T>>>, after: Seq<Option<Slot<T>>>, root: usize) -> bool {
    &&& after.len() == before.len()
    &&& root < before.len() && is_live(before[root as int]) ==> is_marked(after[root as int])
    &&& forall|x: int, j: int|
        #![trigger newly_marked(before, after, x), slot_handles(after[x])[j]]
        0 <= x < before.len() && newly_marked(before, after, x) && 0 <= j < slot_handles(
            after[x],
        ).len() ==> reached_or_pending(after, Seq::empty(), slot_handles(after[x])[j])
}

/// The number of times `x` occurs in `s`.
pub open spec fn occurrences(s: Seq<usize>, x: usize) -> nat
    decreases s.len(),
{
    if s.len() == 0 {
        0
    } else {
        (if s[0] == x {
            1nat
        } else {
            0nat
        }) + occurrences(s.skip(1), x)
    }
}

/// The number of listed slots whose value was dropped.
pub open spec fn dropped_in<T>(slots: Seq<Option<Slot<T>>>, values: Seq<usize>) -> nat
    decreases values.len(),
{
    if values.len() == 0 {
        0
    } else {
        dropped_in(slots, values.drop_last()) + if slots[values.last() as int] matches Some(s)
            && s.dropped {
            1nat
        } else {
            0nat
        }
    }
}

/// Every slot is consistent: its value is gone exactly when it was dropped, and a live
/// value has a handle.
pub open spec fn slots_wf<T>(slots: Seq<Option<Slot<T>>>) -> bool {
    forall|id: int|
        0 <= id < slots.len() ==> match #[trigger] slots[id] {
            Some(s) => (s.dropped <==> s.value is None) && (!s.dropped ==> s.ref_count >= 1),
            None => true,
        }
}

/// `after` differs from `before` only in handle counts and in values dropped: the same
/// slots are allocated, with the same marks, and dropped values stay dropped.
pub open spec fn only_released<T>(before: Seq<Option<Slot<T>>>, after: Seq<Option<Slot<T>>>) -> bool {
    &&& after.len() == before.len()
    &&& forall|id: int|
        0 <= id < before.len() ==> (#[trigger] after[id] is Some <==> before[id] is Some)
    &&& forall|id: int|
        0 <= id < before.len() && #[trigger] after[id] is Some ==> after[id]->0.accessed
            == before[id]->0.accessed && (before[id]->0.dropped ==> after[id]->0.dropped)
}

/// A slot may survive a sweep only if it was listed, marked, and not dropped.
pub open spec fn survives<T>(slots: Seq<Option<Slot<T>>>, values: Seq<usize>, id: usize) -> bool {
    &&& values.contains(id)
    &&& slots[id as int]->0.accessed
    &&& !slots[id as int]->0.dropped
}

/// A slot kept by a sweep: allocated, and its mark cleared.
pub open spec fn is_kept_unmarked<T>(s: Option<Slot<T>>) -> bool {
    s matches Some(slot) && !slot.accessed
}

/// `slots` with one handle less to the value in slot `id`.
pub open spec fn one_less_handle<T>(slots: Seq<Option<Slot<T>>>, id: usize) -> Seq<Option<Slot<T>>> {
    let s = slots[id as int]->0;
    slots.update(
        id as int,
        Some(
            Slot {
                value: s.value,
                ref_count: (s.ref_count - 1) as usize,
                accessed: s.accessed,
                dropped: s.dropped,
            },
        ),
    )
}

/// `slots` with one handle more to the value in slot `id`.
pub open spec fn one_more_handle<T>(slots: Seq<Option<Slot<T>>>, id: usize) -> Seq<Option<Slot<T>>> {
    slots.update(id as int, Some(with_one_more_handle(slots[id as int]->0)))
}

/// `after` differs from `before` only in marks set on live values: the same slots
/// are allocated, with the same values, handle counts and drops, and marks stay.
pub open spec fn only_marked<T>(before: Seq<Option<Slot<T>>>, after: Seq<Option<Slot<T>>>) -> bool {
    &&& after.len() == before.len()
    &&& forall|id: int|
        0 <= id < before.len() ==> (#[trigger] after[id] is Some <==> before[id] is Some)
    &&& forall|id: int|
        0 <= id < before.len() && #[trigger] after[id] is Some ==> {
            let a = after[id]->0;
            let b = before[id]->0;
            &&& a.value == b.value
            &&& a.ref_count == b.ref_count
            &&& a.dropped == b.dropped
            &&& (b.accessed ==> a.accessed)
            &&& (a.accessed && !b.accessed ==> !b.dropped)
        }
}

/// Releasing handles only changes handle counts and drops values: the same slots
/// stay allocated, with the same marks, and dropped values stay dropped.
pub proof fn lemma_release_all_only_released<T: Trace>(slots: Seq<Option<Slot<T>>>, pending: Seq<usize>)
    ensures
        only_released(slots, release_all(slots, pending)),
    decreases live_count(slots), pending.len(),
{
    if pending.len() > 0 {
        let id = pending.last();
        let (next, released) = release_step(slots, id);
        if id < slots.len() && is_live(slots[id as int]) {
            lemma_live_count_update(slots, id as int, next[id as int]);
        }
        lemma_release_all_only_released(next, pending.drop_last() + released);
    }
}

/// Marking only sets marks: the same slots stay allocated, with the same values and
/// handle counts, and marked slots stay marked.
pub proof fn lemma_mark_all_keeps_marks<T: Trace>(slots: Seq<Option<Slot<T>>>, pending: Seq<usize>)
    ensures
        mark_all(slots, pending).len() == slots.len(),
        forall|id: int|
            0 <= id < slots.len() ==> (#[trigger] mark_all(slots, pending)[id] is Some <==> slots[id] is Some),
        forall|id: int|
            0 <= id < slots.len() && slots[id] is Some && slots[id]->0.accessed ==> #[trigger] mark_all(
                slots,
                pending,
            )[id]->0.accessed,
    decreases unmarked_count(slots), pending.len(),
{
    if pending.len() > 0 {
        let id = pending.last();
        let (next, marked) = mark_step(slots, id);
        if id < slots.len() && is_unmarked(slots[id as int]) {
            lemma_unmarked_count_update(slots, id as int, next[id as int]);
        }
        lemma_mark_all_keeps_marks(next, pending.drop_last() + marked);
    }
}

/// One step of marking keeps the handles of every newly marked value marked or
/// pending.
proof fn lemma_mark_closed_step<T: Trace>(
    before: Seq<Option<Slot<T>>>,
    s0: Seq<Option<Slot<T>>>,
    s1: Seq<Option<Slot<T>>>,
    p0: Seq<usize>,
    p1: Seq<usize>,
    id: usize,
)
    requires
        p0.len() > 0,
        id == p0.last(),
        only_marked(before, s0),
        s0.len() == before.len(),
        s1 == mark_step(s0, id).0,
        p1 == p0.drop_last() + mark_step(s0, id).1,
        forall|x: int, j: int|
            #![trigger newly_marked(before, s0, x), slot_handles(s0[x])[j]]
            0 <= x < before.len() && newly_marked(before, s0, x) && 0 <= j < slot_handles(s0[x]).len()
                ==> reached_or_pending(s0, p0, slot_handles(s0[x])[j]),
    ensures
        forall|x: int, j: int|
            #![trigger newly_marked(before, s1, x), slot_handles(s1[x])[j]]
            0 <= x < before.len() && newly_marked(before, s1, x) && 0 <= j < slot_handles(s1[x]).len()
                ==> reached_or_pending(s1, p1, slot_handles(s1[x])[j]),
{
    let step = id < s0.len() && is_unmarked(s0[id as int]);
    assert forall|x: int, j: int|
        #![trigger newly_marked(before, s1, x), slot_handles(s1[x])[j]]
        0 <= x < before.len() && newly_marked(before, s1, x) && 0 <= j < slot_handles(s1[x]).len()
            implies reached_or_pending(s1, p1, slot_handles(s1[x])[j]) by {
        let h = slot_handles(s1[x])[j];
        if step && x == id as int {
            assert(slot_handles(s1[x]) == slot_handles(s0[x]));
            assert(p1[p0.len() - 1 + j] == h);
        } else {
            assert(s1[x] == s0[x]);
            assert(newly_marked(before, s0, x));
            assert(reached_or_pending(s0, p0, slot_handles(s0[x])[j]));
            if h < s0.len() && is_live(s0[h as int]) && !s0[h as int]->0.accessed {
                assert(p0.contains(h));
                let k = choose|k: int| 0 <= k < p0.len() && p0[k] == h;
                if k < p0.len() - 1 {
                    assert(p1[k] == h);
                } else {
                    assert(h == id);
                }
            } else if h < s0.len() && is_live(s0[h as int]) {
                if step && h == id {
                } else {
                    assert(s1[h as int] == s0[h as int]);
                }
            }
        }
    }
}

/// Marking follows handles: on a path of live values from the root, each holding a
/// handle to the next, where no value before the last was marked already, marking
/// from the root marks every value of the path.
pub proof fn law_mark_reaches_path<T: Trace>(
    before: Seq<Option<Slot<T>>>,
    after: Seq<Option<Slot<T>>>,
    path: Seq<usize>,
)
    requires
        path.len() > 0,
        marked_from(before, after, path[0]),
        only_marked(before, after),
        forall|i: int| 0 <= i < path.len() ==> #[trigger] path[i] < before.len() && is_live(before[path[i] as int]),
        forall|i: int| 0 <= i < path.len() - 1 ==> !is_marked(#[trigger] before[path[i] as int]),
        forall|i: int|
            0 <= i < path.len() - 1 ==> #[trigger] slot_handles(after[path[i] as int]).contains(
                path[i + 1],
            ),
    ensures
        forall|i: int| 0 <= i < path.len() ==> is_marked(#[trigger] after[path[i] as int]),
    decreases path.len(),
{
    if path.len() > 1 {
        let prefix = path.drop_last();
        law_mark_reaches_path(before, after, prefix);
        let i = path.len() - 2;
        assert(prefix[i] == path[i]);
        let x = path[i] as int;
        assert(is_marked(after[x]));
        assert(newly_marked(before, after, x));
        let hs = slot_handles(after[x]);
        assert(slot_handles(after[path[i] as int]).contains(path[i + 1]));
        assert(hs.contains(path[i + 1]));
        let j = choose|j: int| 0 <= j < hs.len() && hs[j] == path[i + 1];
        assert(reached_or_pending(after, Seq::empty(), hs[j]));
        let last = path[path.len() - 1] as int;
        assert(is_live(before[last]));
        assert(after[last] is Some && after[last]->0.dropped == before[last]->0.dropped);
        assert(!Seq::<usize>::empty().contains(path[i + 1]));
        assert(is_marked(after[last]));
        assert forall|k: int| 0 <= k < path.len() implies is_marked(#[trigger] after[path[k] as int]) by {
            if k < path.len() - 1 {
                assert(prefix[k] == path[k]);
            }
        }
    }
}

/// `path` leads from `from` to `to` through values that `slots` holds live and not
/// marked, each holding a handle to the next.
pub open spec fn unmarked_path<T: Trace>(
    slots: Seq<Option<Slot<T>>>,
    path: Seq<usize>,
    from: usize,
    to: usize,
) -> bool {
    &&& path.len() > 0
    &&& path[0] == from
    &&& path.last() == to
    &&& forall|i: int|
        0 <= i < path.len() ==> #[trigger] path[i] < slots.len() && is_unmarked(slots[path[i] as int])
    &&& forall|i: int|
        0 <= i < path.len() - 1 ==> #[trigger] slot_handles(slots[path[i] as int]).contains(path[i + 1])
}

/// Marking with `pending` waiting, where every value marked so far is reached from
/// `root` and every pending handle is the root or held by such a value, marks only
/// values that are reached from `root`.
proof fn lemma_mark_all_reached<T: Trace>(
    orig: Seq<Option<Slot<T>>>,
    s: Seq<Option<Slot<T>>>,
    p: Seq<usize>,
    root: usize,
)
    requires
        slots_wf(orig),
        only_marked(orig, s),
        forall|x: usize|
            0 <= x < orig.len() && #[trigger] newly_marked(orig, s, x as int) ==> exists|path: Seq<usize>|
                #![trigger unmarked_path(orig, path, root, x)]
                unmarked_path(orig, path, root, x),
        forall|k: int|
            0 <= k < p.len() ==> #[trigger] p[k] == root || exists|y: usize|
                #![trigger newly_marked(orig, s, y as int)]
                0 <= y < orig.len() && newly_marked(orig, s, y as int) && slot_handles(orig[y as int]).contains(p[k]),
    ensures
        forall|x: usize|
            0 <= x < orig.len() && #[trigger] newly_marked(orig, mark_all(s, p), x as int) ==> exists|path: Seq<usize>|
                #![trigger unmarked_path(orig, path, root, x)]
                unmarked_path(orig, path, root, x),
    decreases unmarked_count(s), p.len(),
{
    if p.len() > 0 {
        let id = p.last();
        let (next, marked) = mark_step(s, id);
        if id < s.len() && is_unmarked(s[id as int]) {
            lemma_unmarked_count_update(s, id as int, next[id as int]);
            let k = p.len() - 1;
            assert(p[k] == id);
            assert(is_unmarked(orig[id as int]));
            let pid: Seq<usize> = if id == root {
                seq![root]
            } else {
                let y = choose|y: usize|
                    #![trigger newly_marked(orig, s, y as int)]
                    0 <= y < orig.len() && newly_marked(orig, s, y as int) && slot_handles(orig[y as int]).contains(id);
                let py = choose|path: Seq<usize>| #[trigger] unmarked_path(orig, path, root, y);
                py.push(id)
            };
            assert(unmarked_path(orig, pid, root, id)) by {
                if id != root {
                    let y = choose|y: usize|
                        #![trigger newly_marked(orig, s, y as int)]
                        0 <= y < orig.len() && newly_marked(orig, s, y as int) && slot_handles(orig[y as int]).contains(id);
                    let py = choose|path: Seq<usize>| #[trigger] unmarked_path(orig, path, root, y);
                    assert(unmarked_path(orig, py, root, y));
                    assert forall|i: int| 0 <= i < pid.len() - 1 implies #[trigger] slot_handles(
                        orig[pid[i] as int],
                    ).contains(pid[i + 1]) by {
                        if i < py.len() - 1 {
                            assert(pid[i] == py[i] && pid[i + 1] == py[i + 1]);
                        } else {
                            assert(pid[i] == y);
                        }
                    }
                    assert forall|i: int| 0 <= i < pid.len() implies #[trigger] pid[i] < orig.len()
                        && is_unmarked(orig[pid[i] as int]) by {
                        if i < py.len() {
                            assert(pid[i] == py[i]);
                        }
                    }
                }
            }
            assert(only_marked(orig, next));
            assert(slot_handles(orig[id as int]) == marked);
            let p2 = p.drop_last() + marked;
            assert forall|x: usize|
                0 <= x < orig.len() && #[trigger] newly_marked(orig, next, x as int) implies exists|path: Seq<usize>|
                    #![trigger unmarked_path(orig, path, root, x)]
                    unmarked_path(orig, path, root, x) by {
                if x != id {
                    assert(newly_marked(orig, s, x as int));
                } else {
                    assert(unmarked_path(orig, pid, root, x));
                }
            }
            assert forall|j: int| 0 <= j < p2.len() implies #[trigger] p2[j] == root || exists|y: usize|
                #![trigger newly_marked(orig, next, y as int)]
                0 <= y < orig.len() && newly_marked(orig, next, y as int) && slot_handles(orig[y as int]).contains(p2[j]) by {
                if j < p.len() - 1 {
                    assert(p2[j] == p[j]);
                    if p[j] != root {
                        let y = choose|y: usize|
                            #![trigger newly_marked(orig, s, y as int)]
                            0 <= y < orig.len() && newly_marked(orig, s, y as int) && slot_handles(orig[y as int]).contains(p[j]);
                        assert(newly_marked(orig, next, y as int));
                    }
                } else {
                    assert(p2[j] == marked[j - (p.len() - 1)]);
                    assert(slot_handles(orig[id as int]).contains(p2[j]));
                    assert(newly_marked(orig, next, id as int));
                }
            }
            lemma_mark_all_reached(orig, next, p2, root);
            assert(mark_all(s, p) == mark_all(next, p2));
        } else {
            assert(next == s);
            let p2 = p.drop_last() + marked;
            assert(marked.len() == 0);
            assert forall|j: int| 0 <= j < p2.len() implies #[trigger] p2[j] == root || exists|y: usize|
                #![trigger newly_marked(orig, s, y as int)]
                0 <= y < orig.len() && newly_marked(orig, s, y as int) && slot_handles(orig[y as int]).contains(p2[j]) by {
                assert(p2[j] == p[j]);
            }
            lemma_mark_all_reached(orig, s, p2, root);
            assert(mark_all(s, p) == mark_all(s, p2));
        }
    } else {
        assert(mark_all(s, p) == s);
    }
}

/// Marking reaches nothing else: every value that marking from `root` marks is
/// reached from the root through values that were live and not marked, each holding
/// a handle to the next.
pub proof fn law_mark_only_reachable<T: Trace>(before: Seq<Option<Slot<T>>>, root: usize, x: usize)
    requires
        slots_wf(before),
        0 <= x < before.len(),
        newly_marked(before, mark_all(before, seq![root]), x as int),
    ensures
        exists|path: Seq<usize>|
            #![trigger unmarked_path(before, path, root, x)]
            unmarked_path(before, path, root, x),
{
    assert(only_marked(before, before));
    lemma_mark_all_reached(before, before, seq![root], root);
}

/// A slot that a sweep keeps: its value is marked and not dropped.
pub open spec fn is_kept<T>(slots: Seq<Option<Slot<T>>>, h: usize) -> bool {
    h < slots.len() && is_marked(slots[h as int]) && is_live(slots[h as int])
}

/// No unmarked live value holds a handle to a value that a sweep keeps, so dropping the
/// unmarked values cannot reach a kept one.
pub open spec fn marks_isolated<T: Trace>(slots: Seq<Option<Slot<T>>>) -> bool {
    forall|x: int, j: int|
        #![trigger is_unmarked(slots[x]), slot_handles(slots[x])[j]]
        0 <= x < slots.len() && is_unmarked(slots[x]) && 0 <= j < slot_handles(slots[x]).len()
            ==> !is_kept(slots, slot_handles(slots[x])[j])
}

/// The slots of `values` that a sweep of `orig` keeps, in order.
pub open spec fn kept_ids<T>(orig: Seq<Option<Slot<T>>>, values: Seq<usize>) -> Seq<usize>
    decreases values.len(),
{
    if values.len() == 0 {
        Seq::empty()
    } else {
        (if is_kept(orig, values[0]) {
            seq![values[0]]
        } else {
            Seq::<usize>::empty()
        }) + kept_ids(orig, values.skip(1))
    }
}

/// The state a sweep of `orig` works on: the slots it keeps are untouched so far (but
/// for those already swept), and every other live value is an unmarked value of
/// `orig` with its handles.
pub open spec fn spares_kept<T: Trace>(
    orig: Seq<Option<Slot<T>>>,
    slots: Seq<Option<Slot<T>>>,
    done: Seq<usize>,
) -> bool {
    &&& slots.len() == orig.len()
    &&& forall|x: usize|
        x < orig.len() && #[trigger] is_kept(orig, x) && !done.contains(x) ==> slots[x as int]
            == orig[x as int]
    &&& forall|x: int|
        0 <= x < orig.len() && #[trigger] is_live(slots[x]) && !is_kept(orig, x as usize) ==> {
            &&& is_unmarked(orig[x])
            &&& !slots[x]->0.accessed
            &&& slots[x]->0.value is Some
            &&& slot_handles(slots[x]) == slot_handles(orig[x])
        }
}

/// Releasing handles that do not name kept slots, from values that are unmarked in
/// `orig`, leaves every kept slot as it was.
proof fn lemma_release_spares_kept<T: Trace>(
    orig: Seq<Option<Slot<T>>>,
    slots: Seq<Option<Slot<T>>>,
    done: Seq<usize>,
    pending: Seq<usize>,
)
    requires
        marks_isolated(orig),
        spares_kept(orig, slots, done),
        forall|k: int| 0 <= k < pending.len() ==> !is_kept(orig, #[trigger] pending[k]),
    ensures
        spares_kept(orig, release_all(slots, pending), done),
        forall|x: usize|
            x < orig.len() && #[trigger] is_kept(orig, x) ==> release_all(slots, pending)[x as int]
                == slots[x as int],
    decreases live_count(slots), pending.len(),
{
    if pending.len() > 0 {
        let id = pending.last();
        let (next, released) = release_step(slots, id);
        assert(!is_kept(orig, id));
        if id < slots.len() && is_live(slots[id as int]) {
            lemma_live_count_update(slots, id as int, next[id as int]);
            let hs = slot_handles(slots[id as int]);
            assert(is_live(slots[id as int]));
            assert(hs == slot_handles(orig[id as int]));
            assert forall|k: int| 0 <= k < released.len() implies !is_kept(orig, #[trigger] released[k]) by {
                if slots[id as int]->0.ref_count <= 1 {
                    assert(released == hs);
                    assert(is_unmarked(orig[id as int]));
                    assert(slot_handles(orig[id as int])[k] == released[k]);
                }
            }
        }
        let rest = pending.drop_last() + released;
        assert forall|k: int| 0 <= k < rest.len() implies !is_kept(orig, #[trigger] rest[k]) by {
            if k < pending.len() - 1 {
                assert(rest[k] == pending[k]);
            } else {
                assert(rest[k] == released[k - (pending.len() - 1)]);
            }
        }
        assert forall|x: int|
            0 <= x < orig.len() && #[trigger] is_live(next[x]) && !is_kept(orig, x as usize) implies {
            &&& is_unmarked(orig[x])
            &&& !next[x]->0.accessed
            &&& next[x]->0.value is Some
            &&& slot_handles(next[x]) == slot_handles(orig[x])
        } by {
            if x != id as int {
                assert(next[x] == slots[x]);
            }
        }
        lemma_release_spares_kept(orig, next, done, rest);
    }
}

/// A sweep of `orig`, from position `i` on, keeps exactly the slots of `values` that it
/// keeps from there on.
proof fn lemma_sweep_keeps<T: Trace>(
    orig: Seq<Option<Slot<T>>>,
    slots: Seq<Option<Slot<T>>>,
    values: Seq<usize>,
    i: int,
    kept: Seq<usize>,
)
    requires
        0 <= i <= values.len(),
        forall|a: int, b: int| 0 <= a < b < values.len() ==> #[trigger] values[a] != #[trigger] values[b],
        marks_isolated(orig),
        spares_kept(orig, slots, values.take(i)),
    ensures
        sweep_from(slots, values, i, kept).1 == kept + kept_ids(orig, values.skip(i)),
    decreases values.len() - i,
{
    if i == values.len() {
        assert(values.skip(i) =~= Seq::<usize>::empty());
        assert(kept + Seq::<usize>::empty() =~= kept);
    } else {
        let id = values[i];
        let done2 = values.take(i + 1);
        assert(values.skip(i).skip(1) =~= values.skip(i + 1));
        assert(values.skip(i)[0] == id);
        assert(!values.take(i).contains(id)) by {
            if values.take(i).contains(id) {
                let a = choose|a: int| 0 <= a < i && values.take(i)[a] == id;
                assert(values[a] == values[i]);
            }
        }
        assert forall|x: usize| #[trigger] values.take(i).contains(x) implies done2.contains(x) by {
            let a = choose|a: int| 0 <= a < i && values.take(i)[a] == x;
            assert(done2[a] == x);
        }
        assert(done2.contains(id)) by {
            assert(done2[i] == id);
        }
        let idi = id as int;
        if 0 <= idi < slots.len() && slots[idi] is Some {
            let s = slots[idi]->0;
            if is_kept(orig, id) {
                assert(slots[idi] == orig[idi]);
            }
            if !s.dropped {
                assert(is_live(slots[idi]));
            }
            if s.dropped {
                let freed = slots.update(idi, None);
                assert(!is_kept(orig, id));
                assert(spares_kept(orig, freed, done2));
                lemma_sweep_keeps(orig, freed, values, i + 1, kept);
                assert(kept_ids(orig, values.skip(i)) =~= kept_ids(orig, values.skip(i + 1)));
            } else if !s.accessed {
                assert(!is_kept(orig, id));
                let zombie = slots.update(
                    idi,
                    Some(Slot { value: None, ref_count: s.ref_count, accessed: false, dropped: true }),
                );
                assert(spares_kept(orig, zombie, done2)) by {
                    assert forall|x: int|
                        0 <= x < orig.len() && #[trigger] is_live(zombie[x]) && !is_kept(orig, x as usize) implies {
                        &&& is_unmarked(orig[x])
                        &&& !zombie[x]->0.accessed
                        &&& zombie[x]->0.value is Some
                        &&& slot_handles(zombie[x]) == slot_handles(orig[x])
                    } by {
                        assert(x != idi);
                        assert(zombie[x] == slots[x]);
                    }
                }
                let hs = s.value->0.handles();
                assert(hs == slot_handles(orig[idi]));
                assert forall|k: int| 0 <= k < hs.len() implies !is_kept(orig, #[trigger] hs[k]) by {
                    assert(slot_handles(orig[idi])[k] == hs[k]);
                }
                lemma_release_spares_kept(orig, zombie, done2, hs);
                let released = release_all(zombie, hs);
                let freed = released.update(idi, None);
                assert(spares_kept(orig, freed, done2)) by {
                    assert forall|x: int|
                        0 <= x < orig.len() && #[trigger] is_live(freed[x]) && !is_kept(orig, x as usize) implies {
                        &&& is_unmarked(orig[x])
                        &&& !freed[x]->0.accessed
                        &&& freed[x]->0.value is Some
                        &&& slot_handles(freed[x]) == slot_handles(orig[x])
                    } by {
                        assert(freed[x] == released[x]);
                    }
                    assert forall|x: usize|
                        x < orig.len() && #[trigger] is_kept(orig, x) && !done2.contains(x)
                        implies freed[x as int] == orig[x as int] by {
                        assert(x != id);
                        assert(freed[x as int] == released[x as int]);
                        assert(released[x as int] == zombie[x as int]);
                    }
                }
                lemma_sweep_keeps(orig, freed, values, i + 1, kept);
                assert(kept_ids(orig, values.skip(i)) =~= kept_ids(orig, values.skip(i + 1)));
            } else {
                assert(is_kept(orig, id));
                let unmarked = slots.update(
                    idi,
                    Some(Slot { value: s.value, ref_count: s.ref_count, accessed: false, dropped: false }),
                );
                assert(spares_kept(orig, unmarked, done2)) by {
                    assert forall|x: int|
                        0 <= x < orig.len() && #[trigger] is_live(unmarked[x]) && !is_kept(orig, x as usize) implies {
                        &&& is_unmarked(orig[x])
                        &&& !unmarked[x]->0.accessed
                        &&& unmarked[x]->0.value is Some
                        &&& slot_handles(unmarked[x]) == slot_handles(orig[x])
                    } by {
                        assert(x != idi);
                        assert(unmarked[x] == slots[x]);
                    }
                }
                lemma_sweep_keeps(orig, unmarked, values, i + 1, kept.push(id));
                assert(kept_ids(orig, values.skip(i)) =~= seq![id] + kept_ids(orig, values.skip(i + 1)));
                assert(kept.push(id) + kept_ids(orig, values.skip(i + 1)) =~= kept + kept_ids(
                    orig,
                    values.skip(i),
                ));
            }
        } else {
            assert(!is_kept(orig, id)) by {
                if is_kept(orig, id) {
                    assert(slots[id as int] == orig[id as int]);
                }
            }
            lemma_sweep_keeps(orig, slots, values, i + 1, kept);
            assert(kept_ids(orig, values.skip(i)) =~= kept_ids(orig, values.skip(i + 1)));
        }
    }
}

/// When no unmarked value holds a handle to a marked one, a sweep keeps exactly the
/// listed values that are marked and not dropped, in their order.
pub proof fn law_sweep_keeps_marked<T: Trace>(slots: Seq<Option<Slot<T>>>, values: Seq<usize>)
    requires
        slots_wf(slots),
        slots.len() <= usize::MAX,
        forall|a: int, b: int| 0 <= a < b < values.len() ==> #[trigger] values[a] != #[trigger] values[b],
        marks_isolated(slots),
    ensures
        sweep_from(slots, values, 0, Seq::empty()).1 == kept_ids(slots, values),
{
    assert(values.take(0) =~= Seq::<usize>::empty());
    assert forall|x: int|
        0 <= x < slots.len() && #[trigger] is_live(slots[x]) && !is_kept(slots, x as usize) implies {
        &&& is_unmarked(slots[x])
        &&& !slots[x]->0.accessed
        &&& slots[x]->0.value is Some
        &&& slot_handles(slots[x]) == slot_handles(slots[x])
    } by {
        assert((x as usize) as int == x);
        assert(match slots[x] {
            Some(s) => (s.dropped <==> s.value is None) && (!s.dropped ==> s.ref_count >= 1),
            None => true,
        });
    }
    assert(spares_kept(slots, slots, values.take(0)));
    lemma_sweep_keeps(slots, slots, values, 0, Seq::empty());
    assert(values.skip(0) =~= values);
    assert(Seq::<usize>::empty() + kept_ids(slots, values) =~= kept_ids(slots, values));
}

/// Marking from `pending` only sets marks, and leaves every newly marked value with
/// its live handles marked, when that held of the values marked so far (with
/// `pending` waiting) and a root that waits or is marked ends marked.
proof fn lemma_mark_all_marked_from<T: Trace>(
    before: Seq<Option<Slot<T>>>,
    s: Seq<Option<Slot<T>>>,
    p: Seq<usize>,
    root: usize,
)
    requires
        only_marked(before, s),
        root < before.len() && is_live(before[root as int]) ==> s[root as int]->0.accessed
            || p.contains(root),
        forall|x: int, j: int|
            #![trigger newly_marked(before, s, x), slot_handles(s[x])[j]]
            0 <= x < before.len() && newly_marked(before, s, x) && 0 <= j < slot_handles(s[x]).len()
                ==> reached_or_pending(s, p, slot_handles(s[x])[j]),
    ensures
        only_marked(before, mark_all(s, p)),
        marked_from(before, mark_all(s, p), root),
    decreases unmarked_count(s), p.len(),
{
    if p.len() == 0 {
        assert(mark_all(s, p) == s);
    } else {
        let id = p.last();
        let (next, marked) = mark_step(s, id);
        let p2 = p.drop_last() + marked;
        if id < s.len() && is_unmarked(s[id as int]) {
            lemma_unmarked_count_update(s, id as int, next[id as int]);
        } else {
            assert(next == s);
        }
        assert(only_marked(before, next));
        if p.contains(root) && !(id < s.len() && is_unmarked(s[id as int]) && id == root) {
            let k = choose|k: int| 0 <= k < p.len() && p[k] == root;
            if k < p.len() - 1 {
                assert(p2[k] == root);
            }
        }
        lemma_mark_closed_step(before, s, next, p, p2, id);
        lemma_mark_all_marked_from(before, next, p2, root);
        assert(mark_all(s, p) == mark_all(next, p2));
    }
}

/// Whether the value in slot `h` is reached from `root`: along a path of live values
/// not marked in `slots`, each holding a handle to the next.
pub open spec fn reached_from<T: Trace>(slots: Seq<Option<Slot<T>>>, root: usize, h: usize) -> bool {
    exists|path: Seq<usize>| #[trigger] unmarked_path(slots, path, root, h)
}

/// The slots of `values` whose values are reached from `root`, in order.
pub open spec fn reached_ids<T: Trace>(slots: Seq<Option<Slot<T>>>, root: usize, values: Seq<usize>) -> Seq<usize>
    decreases values.len(),
{
    if values.len() == 0 {
        Seq::empty()
    } else {
        (if reached_from(slots, root, values[0]) {
            seq![values[0]]
        } else {
            Seq::<usize>::empty()
        }) + reached_ids(slots, root, values.skip(1))
    }
}

proof fn lemma_kept_is_reached<T: Trace>(
    before: Seq<Option<Slot<T>>>,
    after: Seq<Option<Slot<T>>>,
    root: usize,
    values: Seq<usize>,
)
    requires
        forall|h: usize| #[trigger] is_kept(after, h) <==> reached_from(before, root, h),
    ensures
        kept_ids(after, values) == reached_ids(before, root, values),
    decreases values.len(),
{
    if values.len() > 0 {
        lemma_kept_is_reached(before, after, root, values.skip(1));
        assert(is_kept(after, values[0]) <==> reached_from(before, root, values[0]));
    }
}

/// Tracing from a root and then sweeping keeps exactly the listed values that the root
/// reaches, in order: on a heap where nothing is marked, and where the marking leaves
/// no unmarked value holding a handle to a marked one.
pub proof fn law_trace_then_sweep<T: Trace>(before: Seq<Option<Slot<T>>>, root: usize, values: Seq<usize>)
    requires
        slots_wf(before),
        before.len() <= usize::MAX,
        forall|a: int, b: int| 0 <= a < b < values.len() ==> #[trigger] values[a] != #[trigger] values[b],
        forall|x: int| 0 <= x < before.len() ==> !is_marked(#[trigger] before[x]),
        marks_isolated(mark_all(before, seq![root])),
    ensures
        sweep_from(mark_all(before, seq![root]), values, 0, Seq::empty()).1 == reached_ids(before, root, values),
{
    let after = mark_all(before, seq![root]);
    assert(only_marked(before, before));
    assert(seq![root].contains(root)) by {
        assert(seq![root][0] == root);
    }
    lemma_mark_all_marked_from(before, before, seq![root], root);
    assert(slots_wf(after)) by {
        assert forall|id: int| 0 <= id < after.len() implies match #[trigger] after[id] {
            Some(s) => (s.dropped <==> s.value is None) && (!s.dropped ==> s.ref_count >= 1),
            None => true,
        } by {
            assert(match before[id] {
                Some(s) => (s.dropped <==> s.value is None) && (!s.dropped ==> s.ref_count >= 1),
                None => true,
            });
        }
    }
    law_sweep_keeps_marked(after, values);
    assert forall|h: usize| #[trigger] is_kept(after, h) <==> reached_from(before, root, h) by {
        if is_kept(after, h) {
            assert(newly_marked(before, after, h as int));
            law_mark_only_reachable(before, root, h);
        }
        if reached_from(before, root, h) {
            let path = choose|path: Seq<usize>| #[trigger] unmarked_path(before, path, root, h);
            assert forall|i: int| 0 <= i < path.len() - 1 implies #[trigger] slot_handles(
                after[path[i] as int],
            ).contains(path[i + 1]) by {
                assert(path[i] < before.len() && is_unmarked(before[path[i] as int]));
                assert(slot_handles(after[path[i] as int]) == slot_handles(before[path[i] as int]));
            }
            assert forall|i: int| 0 <= i < path.len() - 1 implies !is_marked(#[trigger] before[path[i] as int]) by {
                assert(path[i] < before.len() && is_unmarked(before[path[i] as int]));
            }
            assert forall|i: int| 0 <= i < path.len() implies #[trigger] path[i] < before.len() && is_live(
                before[path[i] as int],
            ) by {
                assert(path[i] < before.len() && is_unmarked(before[path[i] as int]));
            }
            law_mark_reaches_path(before, after, path);
            let last = path.len() - 1;
            assert(path[last] == h);
            assert(is_marked(after[path[last] as int]));
            assert(path[last] < before.len() && is_unmarked(before[path[last] as int]));
        }
    }
    lemma_kept_is_reached(before, after, root, values);
}

/// A clone and a release of a handle to a live value cancel out.
pub proof fn law_clone_release<T>(slots: Seq<Option<Slot<T>>>, id: usize)
    requires
        id < slots.len(),
        slots[id as int] is Some,
        slots[id as int]->0.ref_count < usize::MAX,
    ensures
        one_less_handle(one_more_handle(slots, id), id) == slots,
{
    let s = slots[id as int]->0;
    assert(one_less_handle(one_more_handle(slots, id), id)[id as int]->0 == s);
    assert(one_less_handle(one_more_handle(slots, id), id) =~= slots);
}

/// `slots` with `value` in place of the value in slot `id`, which keeps its count of
/// handles and its mark.
pub open spec fn with_value<T>(slots: Seq<Option<Slot<T>>>, id: usize, value: T) -> Seq<Option<Slot<T>>> {
    slots.update(
        id as int,
        Some(
            (Slot {
                value: Some(value),
                ref_count: slots[id as int]->0.ref_count,
                accessed: slots[id as int]->0.accessed,
                dropped: false,
            }),
        ),
    )
}

/// A value put in place of a live one is what the slot then holds, with its handles
/// (so a value can come to hold a handle to itself, or to one that holds a handle to
/// it); every other slot stays as it was, and the heap stays consistent.
pub proof fn law_replace_reads_back<T: Trace>(slots: Seq<Option<Slot<T>>>, id: usize, value: T)
    requires
        slots_wf(slots),
        id < slots.len(),
        is_live(slots[id as int]),
    ensures
        with_value(slots, id, value)[id as int]->0.value == Some(value),
        slot_handles(with_value(slots, id, value)[id as int]) == value.handles(),
        is_live(with_value(slots, id, value)[id as int]),
        forall|j: int| 0 <= j < slots.len() && j != id ==> #[trigger] with_value(slots, id, value)[j] == slots[j],
        slots_wf(with_value(slots, id, value)),
{
    let after = with_value(slots, id, value);
    assert forall|j: int| 0 <= j < after.len() implies match #[trigger] after[j] {
        Some(s) => (s.dropped <==> s.value is None) && (!s.dropped ==> s.ref_count >= 1),
        None => true,
    } by {
        if j != id {
            assert(after[j] == slots[j]);
        }
    }
}

/// A heap of traced values: each allocated value has a slot, listed in allocation
/// order. Handles count the references to a slot; the last one dropped drops the
/// value, and a sweep frees what the last marking did not reach.
pub struct GcHeap<T> {
    slots: Vec<Option<Slot<T>>>,
    values: Vec<usize>,
}

impl<T: Trace> GcHeap<T> {
    /// The slots of the heap, free ones `None`.
    pub closed spec fn slots(&self) -> Seq<Option<Slot<T>>> {
        self.slots@
    }

    /// The allocated slots, in allocation order.
    pub closed spec fn values(&self) -> Seq<usize> {
        self.values@
    }

    /// The heap is consistent: exactly the allocated slots are listed, each once, and
    /// every slot is consistent.
    pub open spec fn wf(&self) -> bool {
        &&& forall|i: int|
            0 <= i < self.values().len() ==> #[trigger] self.values()[i] < self.slots().len()
                && self.slots()[self.values()[i] as int] is Some
        &&& forall|i: int, j: int|
            0 <= i < j < self.values().len() ==> #[trigger] self.values()[i] != #[trigger] self.values()[j]
        &&& forall|id: int|
            0 <= id < self.slots().len() && #[trigger] self.slots()[id] is Some ==> self.values().contains(
                id as usize,
            )
        &&& slots_wf(self.slots())
    }

    /// An empty heap.
    pub fn new() -> (r: GcHeap<T>)
        ensures
            r.wf(),
            r.slots() == Seq::<Option<Slot<T>>>::empty(),
            r.values() == Seq::<usize>::empty(),
    {
        GcHeap { slots: Vec::new(), values: Vec::new() }
    }

    /// Puts `value` on the heap and hands out the one handle to it.
    pub fn allocate(&mut self, value: T) -> (r: Gc<T>)
        requires
            old(self).wf(),
        ensures
            final(self).wf(),
            r.slot() == old(self).slots().len(),
            final(self).slots() == old(self).slots().push(
                Some(Slot { value: Some(value), ref_count: 1, accessed: false, dropped: false }),
            ),
            final(self).values() == old(self).values().push(r.slot()),
    {
        let ghost old_values = self.values@;
        let index = self.slots.len();
        self.slots.push(Some(Slot { value: Some(value), ref_count: 1, accessed: false, dropped: false }));
        self.values.push(index);
        proof {
            assert forall|id: int|
                0 <= id < self.slots().len() && #[trigger] self.slots()[id] is Some implies self.values().contains(
                id as usize,
            ) by {
                if id < index {
                    let k = choose|k: int| 0 <= k < old_values.len() && old_values[k] == id as usize;
                    assert(self.values()[k] == id as usize);
                } else {
                    assert(self.values()[self.values().len() - 1] == id as usize);
                }
            }
        }
        Gc { index, marker: PhantomData }
    }

    /// The value a handle refers to.
    pub fn get(&self, gc: &Gc<T>) -> (r: &T)
        requires
            self.wf(),
            gc.slot() < self.slots().len(),
            is_live(self.slots()[gc.slot() as int]),
        ensures
            self.slots()[gc.slot() as int]->0.value == Some(*r),
    {
        let slot = self.slots[gc.index].as_ref().unwrap();
        slot.value.as_ref().unwrap()
    }

    /// A new handle to the value `gc` refers to: what cloning a `Gc` does.
    pub fn clone_gc(&mut self, gc: &Gc<T>) -> (r: Gc<T>)
        requires
            old(self).wf(),
            gc.slot() < old(self).slots().len(),
            is_live(old(self).slots()[gc.slot() as int]),
            old(self).slots()[gc.slot() as int]->0.ref_count < usize::MAX,
        ensures
            final(self).wf(),
            r.slot() == gc.slot(),
            final(self).values() == old(self).values(),
            final(self).slots() == one_more_handle(old(self).slots(), gc.slot()),
    {
        let id = gc.index;
        let mut taken: Option<Slot<T>> = None;
        self.slots.set_and_swap(id, &mut taken);
        let mut slot = taken.unwrap();
        slot.ref_count = slot.ref_count + 1;
        self.slots.set(id, Some(slot));
        proof {
            assert(self.slots() =~= one_more_handle(old(self).slots(), gc.slot()));
        }
        Gc { index: id, marker: PhantomData }
    }

    /// Puts `value` in place of the value `gc` refers to and hands back the value it
    /// held: how a value on the heap changes, such as a node gaining a link. The
    /// handles `value` holds are counted already, and those of the value handed back
    /// go with it; the slot keeps its count of handles and its mark.
    pub fn replace(&mut self, gc: &Gc<T>, value: T) -> (r: T)
        requires
            old(self).wf(),
            gc.slot() < old(self).slots().len(),
            is_live(old(self).slots()[gc.slot() as int]),
        ensures
            final(self).wf(),
            final(self).values() == old(self).values(),
            old(self).slots()[gc.slot() as int]->0.value == Some(r),
            final(self).slots() == with_value(old(self).slots(), gc.slot(), value),
    {
        let id = gc.index;
        let mut taken: Option<Slot<T>> = None;
        self.slots.set_and_swap(id, &mut taken);
        let mut slot = taken.unwrap();
        let held = slot.value.take().unwrap();
        slot.value = Some(value);
        self.slots.set(id, Some(slot));
        proof {
            assert(self.slots() =~= with_value(old(self).slots(), gc.slot(), value));
        }
        held
    }

    /// Drops a handle: what dropping a `Gc` does. The slot has one handle less; when
    /// that was the last one, its value is dropped, which releases the handles the
    /// value held, and so on. The slot stays listed until a sweep.
    pub fn release(&mut self, gc: Gc<T>)
        requires
            old(self).wf(),
        ensures
            final(self).wf(),
            final(self).values() == old(self).values(),
            only_released(old(self).slots(), final(self).slots()),
            !(gc.slot() < old(self).slots().len() && is_live(old(self).slots()[gc.slot() as int]))
                ==> final(self).slots() == old(self).slots(),
            gc.slot() < old(self).slots().len() && is_live(old(self).slots()[gc.slot() as int])
                && old(self).slots()[gc.slot() as int]->0.ref_count >= 2 ==> final(self).slots()
                == one_less_handle(old(self).slots(), gc.slot()),
            gc.slot() < old(self).slots().len() && is_live(old(self).slots()[gc.slot() as int])
                && old(self).slots()[gc.slot() as int]->0.ref_count == 1 ==> final(self).slots()[gc.slot() as int]->0.dropped,
            final(self).slots() == release_all(old(self).slots(), seq![gc.slot()]),
    {
        let id = gc.index;
        let live = id < self.slots.len() && match &self.slots[id] {
            Some(slot) => !slot.dropped,
            None => false,
        };
        let ghost s0 = self.slots();
        proof {
            let (next, rel) = release_step(s0, id);
            assert(seq![id].drop_last() + rel =~= rel);
            if id < s0.len() && is_live(s0[id as int]) {
                lemma_live_count_update(s0, id as int, next[id as int]);
            }
            assert(release_all(s0, seq![id]) == release_all(next, seq![id].drop_last() + rel));
        }
        if !live {
            proof {
                assert(release_all(s0, Seq::<usize>::empty()) == s0);
            }
            return;
        }
        let mut taken: Option<Slot<T>> = None;
        self.slots.set_and_swap(id, &mut taken);
        let mut slot = taken.unwrap();
        if slot.ref_count <= 1 {
            let value = slot.value.take().unwrap();
            let mut released = value.trace();
            slot.ref_count = 0;
            slot.dropped = true;
            self.slots.set(id, Some(slot));
            let ghost zombie = self.slots();
            proof {
                let (next, rel) = release_step(s0, id);
                assert(zombie =~= next);
                assert(released@ == rel);
            }
            self.release_pending(&mut released);
            proof {
                assert(zombie[id as int]->0.dropped);
            }
        } else {
            slot.ref_count = slot.ref_count - 1;
            self.slots.set(id, Some(slot));
            proof {
                assert(self.slots() =~= one_less_handle(old(self).slots(), gc.slot()));
                let (next, rel) = release_step(s0, id);
                assert(self.slots() =~= next);
                assert(release_all(next, Seq::<usize>::empty()) == next);
            }
        }
    }

    /// Releases every handle in `pending`, with the cascade each dropped value sets
    /// off, until none is pending: a value still live at the end lost at least one
    /// handle for each time its slot occurs in `pending`.
    fn release_pending(&mut self, pending: &mut Vec<usize>)
        requires
            slots_wf(old(self).slots()),
        ensures
            slots_wf(final(self).slots()),
            only_released(old(self).slots(), final(self).slots()),
            final(self).values() == old(self).values(),
            final(pending)@.len() == 0,
            final(self).slots() == release_all(old(self).slots(), old(pending)@),
            forall|id: int|
                0 <= id < old(self).slots().len() && #[trigger] is_live(final(self).slots()[id])
                    ==> final(self).slots()[id]->0.ref_count + occurrences(old(pending)@, id as usize)
                    <= old(self).slots()[id]->0.ref_count,
    {
        let ghost initial = pending@;
        let ghost mut base: int = pending@.len() as int;
        proof {
            assert(initial.subrange(base, initial.len() as int) =~= Seq::<usize>::empty());
        }
        loop
            invariant
                slots_wf(self.slots()),
                only_released(old(self).slots(), self.slots()),
                self.values() == old(self).values(),
                initial == old(pending)@,
                release_all(self.slots(), pending@) == release_all(old(self).slots(), initial),
                0 <= base <= pending@.len(),
                base <= initial.len(),
                pending@.take(base) == initial.take(base),
                forall|id: int|
                    0 <= id < old(self).slots().len() && #[trigger] is_live(self.slots()[id])
                        ==> self.slots()[id]->0.ref_count + occurrences(
                        initial.subrange(base, initial.len() as int),
                        id as usize,
                    ) <= old(self).slots()[id]->0.ref_count,
            ensures
                pending@.len() == 0,
                base == 0,
                self.slots() == release_all(old(self).slots(), initial),
            decreases live_count(self.slots()), pending@.len(),
        {
            let ghost s0 = self.slots();
            let ghost p0 = pending@;
            let ghost b0 = base;
            match pending.pop() {
                None => {
                    proof {
                        assert(p0.len() == 0);
                    }
                    break;
                },
                Some(id) => {
                    proof {
                        if p0.len() == b0 {
                            assert(initial[b0 - 1] == initial.take(b0)[b0 - 1]);
                            assert(p0.take(b0)[b0 - 1] == id);
                            base = b0 - 1;
                            assert(initial.subrange(base, initial.len() as int).skip(1) =~= initial.subrange(
                                b0,
                                initial.len() as int,
                            ));
                            assert(initial.subrange(base, initial.len() as int)[0] == id);
                        }
                        assert(pending@.take(base) =~= initial.take(base)) by {
                            assert forall|k: int| 0 <= k < base implies pending@[k] == initial[k] by {
                                assert(p0.take(b0)[k] == initial.take(b0)[k]);
                            }
                        }
                    }
                    let live = id < self.slots.len() && match &self.slots[id] {
                        Some(slot) => !slot.dropped,
                        None => false,
                    };
                    if live {
                        let mut taken: Option<Slot<T>> = None;
                        self.slots.set_and_swap(id, &mut taken);
                        let mut slot = taken.unwrap();
                        if slot.ref_count <= 1 {
                            let value = slot.value.take().unwrap();
                            let mut released = value.trace();
                            slot.ref_count = 0;
                            slot.dropped = true;
                            self.slots.set(id, Some(slot));
                            let ghost p1 = pending@;
                            pending.append(&mut released);
                            proof {
                                assert(pending@.take(base) =~= p1.take(base));
                            }
                        } else {
                            slot.ref_count = slot.ref_count - 1;
                            self.slots.set(id, Some(slot));
                        }
                        proof {
                            lemma_live_count_update(s0, id as int, self.slots()[id as int]);
                            assert(self.slots() =~= s0.update(id as int, self.slots()[id as int]));
                            let (next, rel) = release_step(s0, id);
                            assert(self.slots() =~= next);
                            assert(pending@ =~= p0.drop_last() + rel);
                        }
                    } else {
                        proof {
                            assert(pending@ =~= p0.drop_last() + Seq::<usize>::empty());
                        }
                    }
                },
            }
        }
        proof {
            assert(initial.subrange(0, initial.len() as int) =~= initial);
        }
    }

    /// Marks every value reachable from `root` through values not marked yet: what
    /// tracing a `Gc` does. A sweep keeps only marked values.
    pub fn mark(&mut self, root: &Gc<T>)
        requires
            old(self).wf(),
        ensures
            final(self).wf(),
            final(self).values() == old(self).values(),
            only_marked(old(self).slots(), final(self).slots()),
            root.slot() < old(self).slots().len() && is_live(old(self).slots()[root.slot() as int])
                ==> final(self).slots()[root.slot() as int]->0.accessed,
            final(self).slots() == mark_all(old(self).slots(), seq![root.slot()]),
            marked_from(old(self).slots(), final(self).slots(), root.slot()),
            forall|x: int, j: int|
                #![trigger newly_marked(old(self).slots(), final(self).slots(), x), slot_handles(final(self).slots()[x])[j]]
                0 <= x < old(self).slots().len() && newly_marked(old(self).slots(), final(self).slots(), x)
                    && 0 <= j < slot_handles(final(self).slots()[x]).len() ==> reached_or_pending(
                    final(self).slots(),
                    Seq::empty(),
                    slot_handles(final(self).slots()[x])[j],
                ),
            forall|x: usize|
                x < old(self).slots().len() && #[trigger] newly_marked(old(self).slots(), final(self).slots(), x as int)
                    ==> exists|path: Seq<usize>|
                    #![trigger unmarked_path(old(self).slots(), path, root.slot(), x)]
                    unmarked_path(old(self).slots(), path, root.slot(), x),
    {
        let mut pending: Vec<usize> = vec![root.index];
        let ghost target = mark_all(self.slots(), pending@);
        loop
            invariant
                self.wf(),
                self.values() == old(self).values(),
                only_marked(old(self).slots(), self.slots()),
                root.slot() < old(self).slots().len() && is_live(old(self).slots()[root.slot() as int])
                    ==> self.slots()[root.slot() as int]->0.accessed || pending@.contains(root.slot()),
                mark_all(self.slots(), pending@) == target,
                target == mark_all(old(self).slots(), seq![root.slot()]),
                forall|x: int, j: int|
                    #![trigger newly_marked(old(self).slots(), self.slots(), x), slot_handles(self.slots()[x])[j]]
                    0 <= x < old(self).slots().len() && newly_marked(old(self).slots(), self.slots(), x)
                        && 0 <= j < slot_handles(self.slots()[x]).len() ==> reached_or_pending(
                        self.slots(),
                        pending@,
                        slot_handles(self.slots()[x])[j],
                    ),
            ensures
                root.slot() < old(self).slots().len() && is_live(old(self).slots()[root.slot() as int])
                    ==> self.slots()[root.slot() as int]->0.accessed,
                self.slots() == target,
                pending@.len() == 0,
            decreases unmarked_count(self.slots()), pending@.len(),
        {
            let ghost s0 = self.slots();
            let ghost p0 = pending@;
            match pending.pop() {
                None => {
                    proof {
                        assert(p0.len() == 0);
                    }
                    break;
                },
                Some(id) => {
                    proof {
                        if p0.contains(root.slot()) {
                            let k = choose|k: int| 0 <= k < p0.len() && p0[k] == root.slot();
                            if k < p0.len() - 1 {
                                assert(p0.drop_last()[k] == root.slot());
                            } else {
                                assert(id == root.slot());
                            }
                        }
                    }
                    let unmarked = id < self.slots.len() && match &self.slots[id] {
                        Some(slot) => !slot.dropped && !slot.accessed,
                        None => false,
                    };
                    if unmarked {
                        let mut taken: Option<Slot<T>> = None;
                        self.slots.set_and_swap(id, &mut taken);
                        let mut slot = taken.unwrap();
                        let mut reached = match &slot.value {
                            Some(v) => v.trace(),
                            None => Vec::new(),
                        };
                        slot.accessed = true;
                        self.slots.set(id, Some(slot));
                        pending.append(&mut reached);
                        proof {
                            lemma_unmarked_count_update(s0, id as int, self.slots()[id as int]);
                            assert(self.slots() =~= s0.update(id as int, self.slots()[id as int]));
                            if p0.drop_last().contains(root.slot()) {
                                let k = choose|k: int| 0 <= k < p0.drop_last().len() && p0.drop_last()[k] == root.slot();
                                assert(pending@[k] == root.slot());
                            }
                            let (next, marked) = mark_step(s0, id);
                            assert(self.slots() =~= next);
                            assert(pending@ =~= p0.drop_last() + marked);
                            lemma_mark_closed_step(old(self).slots(), s0, self.slots(), p0, pending@, id);
                        }
                    } else {
                        proof {
                            if p0.drop_last().contains(root.slot()) {
                                let k = choose|k: int| 0 <= k < p0.drop_last().len() && p0.drop_last()[k] == root.slot();
                                assert(pending@[k] == root.slot());
                            }
                            assert(pending@ =~= p0.drop_last() + Seq::<usize>::empty());
                            lemma_mark_closed_step(old(self).slots(), s0, self.slots(), p0, pending@, id);
                        }
                    }
                },
            }
        }
        proof {
            assert forall|x: usize|
                x < old(self).slots().len() && #[trigger] newly_marked(old(self).slots(), self.slots(), x as int)
                    implies exists|path: Seq<usize>|
                    #![trigger unmarked_path(old(self).slots(), path, root.slot(), x)]
                    unmarked_path(old(self).slots(), path, root.slot(), x) by {
                law_mark_only_reachable(old(self).slots(), root.slot(), x);
            }
        }
    }

    /// Frees what the last marking did not reach: a dropped value's slot is freed; a
    /// live value that was not marked is dropped (releasing the handles it held) and its
    /// slot freed; a marked value is kept and unmarked for the next marking.
    #[verifier::rlimit(60)]
    pub fn sweep(&mut self)
        requires
            old(self).wf(),
        ensures
            final(self).wf(),
            (final(self).slots(), final(self).values()) == sweep_from(
                old(self).slots(),
                old(self).values(),
                0,
                Seq::empty(),
            ),
            marks_isolated(old(self).slots()) ==> final(self).values() == kept_ids(
                old(self).slots(),
                old(self).values(),
            ),
            forall|k: int|
                0 <= k < final(self).values().len() ==> survives(
                    old(self).slots(),
                    old(self).values(),
                    #[trigger] final(self).values()[k],
                ),
            forall|k: int|
                0 <= k < final(self).values().len() ==> is_kept_unmarked(
                    final(self).slots()[#[trigger] final(self).values()[k] as int],
                ),
            (forall|j: int|
                0 <= j < old(self).values().len() ==> !is_marked(
                    old(self).slots()[#[trigger] old(self).values()[j] as int],
                )) ==> final(self).values().len() == 0,
    {
        let ghost s_old = self.slots();
        let ghost v_old = self.values();
        proof {
            if marks_isolated(s_old) {
                assert(self.slots@.len() == self.slots.len());
                law_sweep_keeps_marked(s_old, v_old);
            }
        }
        let mut kept: Vec<usize> = Vec::new();
        let mut i: usize = 0;
        while i < self.values.len()
            invariant
                self.values() == v_old,
                v_old == old(self).values(),
                s_old == old(self).slots(),
                old(self).wf(),
                0 <= i <= v_old.len(),
                self.slots().len() == s_old.len(),
                slots_wf(self.slots()),
                sweep_from(self.slots(), v_old, i as int, kept@) == sweep_from(
                    s_old,
                    v_old,
                    0,
                    Seq::empty(),
                ),
                forall|id: int|
                    0 <= id < s_old.len() && !v_old.contains(id as usize) ==> #[trigger] self.slots()[id]
                        is None,
                forall|j: int|
                    0 <= j < i ==> (#[trigger] self.slots()[v_old[j] as int] is Some <==> kept@.contains(
                        v_old[j],
                    )),
                forall|j: int|
                    i <= j < v_old.len() ==> #[trigger] self.slots()[v_old[j] as int] is Some
                        && self.slots()[v_old[j] as int]->0.accessed == s_old[v_old[j] as int]->0.accessed
                        && (s_old[v_old[j] as int]->0.dropped ==> self.slots()[v_old[j] as int]->0.dropped),
                forall|k: int|
                    0 <= k < kept@.len() ==> exists|j: int|
                        0 <= j < i && #[trigger] v_old[j] == #[trigger] kept@[k],
                forall|k1: int, k2: int|
                    0 <= k1 < k2 < kept@.len() ==> #[trigger] kept@[k1] != #[trigger] kept@[k2],
                forall|k: int|
                    0 <= k < kept@.len() ==> v_old.contains(#[trigger] kept@[k]) && s_old[kept@[k] as int]->0.accessed
                        && !s_old[kept@[k] as int]->0.dropped && self.slots()[kept@[k] as int] is Some
                        && !self.slots()[kept@[k] as int]->0.accessed,
            decreases v_old.len() - i,
        {
            let id = self.values[i];
            let ghost s0 = self.slots();
            let ghost k0 = kept@;
            let mut taken: Option<Slot<T>> = None;
            self.slots.set_and_swap(id, &mut taken);
            let mut slot = taken.unwrap();
            let ghost sl = s0[id as int]->0;
            if slot.dropped {
                proof {
                    assert(self.slots() =~= s0.update(id as int, None));
                    assert(sweep_from(s0, v_old, i as int, k0) == sweep_from(
                        self.slots(),
                        v_old,
                        i + 1,
                        kept@,
                    ));
                }
            } else if !slot.accessed {
                let value = slot.value.take().unwrap();
                let mut released = value.trace();
                slot.dropped = true;
                self.slots.set(id, Some(slot));
                let ghost zombie = self.slots();
                proof {
                    assert(zombie =~= s0.update(
                        id as int,
                        Some(Slot { value: None, ref_count: sl.ref_count, accessed: false, dropped: true }),
                    ));
                    assert(released@ == sl.value->0.handles());
                }
                self.release_pending(&mut released);
                let ghost after = self.slots();
                self.slots.set(id, None);
                proof {
                    assert(self.slots() =~= after.update(id as int, None));
                    assert(sweep_from(s0, v_old, i as int, k0) == sweep_from(
                        self.slots(),
                        v_old,
                        i + 1,
                        kept@,
                    ));
                }
            } else {
                slot.accessed = false;
                self.slots.set(id, Some(slot));
                kept.push(id);
                proof {
                    assert(kept@[kept@.len() - 1] == id);
                    assert(kept@ == k0.push(id));
                    assert(self.slots() =~= s0.update(
                        id as int,
                        Some(Slot { value: sl.value, ref_count: sl.ref_count, accessed: false, dropped: false }),
                    ));
                    assert(sweep_from(s0, v_old, i as int, k0) == sweep_from(
                        self.slots(),
                        v_old,
                        i + 1,
                        kept@,
                    ));
                }
            }
            proof {
                assert forall|j: int|
                    0 <= j < i + 1 implies (#[trigger] self.slots()[v_old[j] as int] is Some
                    <==> kept@.contains(v_old[j])) by {
                    if j < i {
                        if kept@.contains(v_old[j]) && !k0.contains(v_old[j]) {
                            assert(v_old[j] == id);
                        }
                        if k0.contains(v_old[j]) {
                            let k = choose|k: int| 0 <= k < k0.len() && k0[k] == v_old[j];
                            assert(kept@[k] == v_old[j]);
                        }
                    } else {
                        if k0.contains(v_old[j]) {
                            let k = choose|k: int| 0 <= k < k0.len() && k0[k] == v_old[j];
                            let jj = choose|jj: int| 0 <= jj < i && v_old[jj] == k0[k];
                        }
                    }
                }
            }
            i = i + 1;
        }
        let ghost kept_final = kept@;
        self.values = kept;
        proof {
            assert(self.slots@.len() == self.slots.len());
            assert forall|id: int|
                0 <= id < self.slots().len() && #[trigger] self.slots()[id] is Some implies self.values().contains(
                id as usize,
            ) by {
                assert(v_old.contains(id as usize));
                let j = choose|j: int| 0 <= j < v_old.len() && v_old[j] == id as usize;
                assert(v_old[j] as int == id);
                assert(self.slots()[v_old[j] as int] is Some);
                assert(kept_final.contains(v_old[j]));
            }
            if self.values().len() > 0 {
                let id = self.values()[0];
                assert(survives(s_old, v_old, id));
                let j = choose|j: int| 0 <= j < v_old.len() && v_old[j] == id;
                assert(is_marked(s_old[v_old[j] as int]));
            }
        }
    }

    /// The number of listed values that were dropped and wait for a sweep.
    pub fn dropped_count(&self) -> (r: usize)
        requires
            self.wf(),
        ensures
            r == dropped_in(self.slots(), self.values()),
    {
        let mut count: usize = 0;
        let mut i: usize = 0;
        while i < self.values.len()
            invariant
                self.wf(),
                0 <= i <= self.values@.len(),
                count == dropped_in(self.slots(), self.values().take(i as int)),
                count <= i,
            decreases self.values@.len() - i,
        {
            let id = self.values[i];
            proof {
                assert(self.values().take(i + 1).drop_last() =~= self.values().take(i as int));
            }
            let dropped = match &self.slots[id] {
                Some(slot) => slot.dropped,
                None => false,
            };
            if dropped {
                count = count + 1;
            }
            i = i + 1;
        }
        proof {
            assert(self.values().take(i as int) =~= self.values());
        }
        count
    }

    /// The number of listed values, dropped ones included.
    pub fn len(&self) -> (r: usize)
        ensures
            r == self.values().len(),
    {
        self.values.len()
    }

    /// Whether no value is listed.
    pub fn is_empty(&self) -> (r: bool)
        ensures
            r == (self.values().len() == 0),
    {
        self.values.len() == 0
    }
}

impl<T: Trace> Default for GcHeap<T> {
    fn default() -> (r: GcHeap<T>)
        ensures
            r.wf(),
            r.slots() == Seq::<Option<Slot<T>>>::empty(),
            r.values() == Seq::<usize>::empty(),
    {
        GcHeap::new()
    }
}

} // verus!
