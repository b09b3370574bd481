//! The slot store: a growable arena of optional payload slots.
//!
//! A handle is an index into the arena.  A live slot holds `Some(payload)`;
//! a freed slot stays in the arena as a `None` tombstone and is the first
//! candidate for reuse (allocation always fills the lowest free slot, and
//! extends the arena only when every slot is live).

use vstd::prelude::*;

verus! {

/// True when `i` names a live slot of `s`.
pub open spec fn slot_live<T>(s: Seq<Option<T>>, i: int) -> bool {
    0 <= i < s.len() && s[i] is Some
}

/// Number of live slots of `s`.
pub open spec fn live_count<T>(s: Seq<Option<T>>) -> nat
    decreases s.len(),
{
    if s.len() == 0 {
        0
    } else {
        live_count(s.drop_last()) + if s.last() is Some {
            1nat
        } else {
            0nat
        }
    }
}

/// One past the highest live slot of `s`, or zero when no slot is live.
pub open spec fn live_bound<T>(s: Seq<Option<T>>) -> nat
    decreases s.len(),
{
    if s.len() == 0 {
        0
    } else if s.last() is Some {
        s.len()
    } else {
        live_bound(s.drop_last())
    }
}

/// The lowest free slot of `s`, or `s.len()` when every slot is live: the
/// handle that the next allocation returns.
pub open spec fn first_free<T>(s: Seq<Option<T>>) -> int
    decreases s.len(),
{
    if s.len() == 0 {
        0
    } else if s[0] is None {
        0
    } else {
        1 + first_free(s.subrange(1, s.len() as int))
    }
}

/// The arena after allocating `v`: the lowest free slot filled, or a new
/// live slot appended when every slot was live.
pub open spec fn alloc_result<T>(s: Seq<Option<T>>, v: T) -> Seq<Option<T>> {
    if first_free(s) < s.len() {
        s.update(first_free(s), Some(v))
    } else {
        s.push(Some(v))
    }
}

/// The handles of the live slots of `s`, in increasing order.
pub open spec fn live_indices<T>(s: Seq<Option<T>>) -> Seq<usize>
    decreases s.len(),
{
    if s.len() == 0 {
        Seq::empty()
    } else if s.last() is Some {
        live_indices(s.drop_last()).push((s.len() - 1) as usize)
    } else {
        live_indices(s.drop_last())
    }
}

/// The payloads of the live slots of `s`, in increasing handle order.
pub open spec fn live_values<T>(s: Seq<Option<T>>) -> Seq<T>
    decreases s.len(),
{
    if s.len() == 0 {
        Seq::empty()
    } else if s.last() is Some {
        live_values(s.drop_last()).push(s.last().unwrap())
    } else {
        live_values(s.drop_last())
    }
}

/// The `(handle, payload)` pairs of the live slots of `s`, in increasing
/// handle order.
pub open spec fn live_pairs<T>(s: Seq<Option<T>>) -> Seq<(usize, T)>
    decreases s.len(),
{
    if s.len() == 0 {
        Seq::empty()
    } else if s.last() is Some {
        live_pairs(s.drop_last()).push((((s.len() - 1) as usize), s.last().unwrap()))
    } else {
        live_pairs(s.drop_last())
    }
}

/// The arena after allocating a list of payloads in order, each into the
/// lowest free slot of its moment.
pub open spec fn arena_after_adds<T>(s: Seq<Option<T>>, vs: Seq<T>) -> Seq<Option<T>>
    decreases vs.len(),
{
    if vs.len() == 0 {
        s
    } else {
        arena_after_adds(alloc_result(s, vs[0]), vs.subrange(1, vs.len() as int))
    }
}

/// The handles that allocating a list of payloads in order returns.
pub open spec fn handles_of_adds<T>(s: Seq<Option<T>>, vs: Seq<T>) -> Seq<usize>
    decreases vs.len(),
{
    if vs.len() == 0 {
        Seq::empty()
    } else {
        seq![(first_free(s) as usize)] + handles_of_adds(
            alloc_result(s, vs[0]),
            vs.subrange(1, vs.len() as int),
        )
    }
}

/// Allocating one more payload extends both folds by one step at the end.
pub proof fn lemma_adds_snoc<T>(s: Seq<Option<T>>, vs: Seq<T>, v: T)
    ensures
        arena_after_adds(s, vs.push(v)) == alloc_result(arena_after_adds(s, vs), v),
        handles_of_adds(s, vs.push(v)) == handles_of_adds(s, vs).push(
            (first_free(arena_after_adds(s, vs)) as usize),
        ),
    decreases vs.len(),
{
    let vp = vs.push(v);
    if vs.len() == 0 {
        assert(vp[0] == v);
        assert(vp.subrange(1, 1) =~= Seq::<T>::empty());
        assert(arena_after_adds(alloc_result(s, v), vp.subrange(1, 1)) == alloc_result(s, v));
        assert(handles_of_adds(alloc_result(s, v), vp.subrange(1, 1)) =~= Seq::<usize>::empty());
        assert(arena_after_adds(s, vs) == s);
        assert(handles_of_adds(s, vs) =~= Seq::<usize>::empty());
        assert(arena_after_adds(s, vp) == alloc_result(s, v));
        assert(handles_of_adds(s, vp) =~= handles_of_adds(s, vs).push(
            (first_free(arena_after_adds(s, vs)) as usize),
        ));
    } else {
        assert(vp[0] == vs[0]);
        let rest = vs.subrange(1, vs.len() as int);
        assert(vp.subrange(1, vp.len() as int) =~= rest.push(v));
        lemma_adds_snoc(alloc_result(s, vs[0]), rest, v);
        assert(arena_after_adds(s, vp) == arena_after_adds(alloc_result(s, vs[0]), rest.push(v)));
        assert(handles_of_adds(s, vp) =~= seq![(first_free(s) as usize)] + handles_of_adds(
            alloc_result(s, vs[0]),
            rest.push(v),
        ));
        assert(handles_of_adds(s, vs) =~= seq![(first_free(s) as usize)] + handles_of_adds(
            alloc_result(s, vs[0]),
            rest,
        ));
        assert(handles_of_adds(s, vp) =~= handles_of_adds(s, vs).push(
            (first_free(arena_after_adds(s, vs)) as usize),
        ));
    }
}

/// A slot below the lowest free slot is live, the lowest free slot itself
/// is free when it lies inside the arena, and the lowest free slot never
/// leaves the arena by more than one step.
pub proof fn lemma_first_free_facts<T>(s: Seq<Option<T>>)
    ensures
        0 <= first_free(s) <= s.len(),
        forall|j: int| 0 <= j < first_free(s) ==> s[j] is Some,
        first_free(s) < s.len() ==> s[first_free(s)] is None,
    decreases s.len(),
{
    if s.len() > 0 && s[0] is Some {
        let t = s.subrange(1, s.len() as int);
        lemma_first_free_facts(t);
        assert forall|j: int| 0 <= j < first_free(s) implies s[j] is Some by {
            if j > 0 {
                assert(t[j - 1] is Some);
            }
        }
    }
}

/// The lowest free slot is pinned down by its characterization: everything
/// below `h` live, and `h` itself free or one past the arena.
pub proof fn lemma_first_free_is<T>(s: Seq<Option<T>>, h: int)
    requires
        0 <= h <= s.len(),
        forall|j: int| 0 <= j < h ==> s[j] is Some,
        h < s.len() ==> s[h] is None,
    ensures
        first_free(s) == h,
    decreases s.len(),
{
    if s.len() > 0 && s[0] is Some {
        let t = s.subrange(1, s.len() as int);
        assert(forall|j: int| 0 <= j < h - 1 ==> t[j] == s[j + 1]);
        lemma_first_free_is(t, h - 1);
    }
}

/// The arena of slots.  The sequence of options is the whole abstract state:
/// its length is the number of handles ever issued and still backed by a
/// slot, and each entry is the slot's payload or a tombstone.
pub struct SlotStore<T> {
    pub slots: Vec<Option<T>>,
}

impl<T> View for SlotStore<T> {
    type V = Seq<Option<T>>;

    open spec fn view(&self) -> Seq<Option<T>> {
        self.slots@
    }
}

impl<T> SlotStore<T> {
    /// An empty arena.
    pub fn new() -> (r: Self)
        ensures
            r@ =~= Seq::<Option<T>>::empty(),
    {
        SlotStore { slots: Vec::new() }
    }

    /// Length of the arena, live and freed slots together.
    pub fn arena_len(&self) -> (r: usize)
        ensures
            r == self@.len(),
    {
        self.slots.len()
    }

    /// Whether `h` names a live slot.
    pub fn is_live(&self, h: usize) -> (r: bool)
        ensures
            r == slot_live(self@, h as int),
    {
        h < self.slots.len() && self.slots[h].is_some()
    }

    /// Allocate a payload into the lowest free slot, extending the arena
    /// when every slot is live; returns the handle.
    pub fn allocate(&mut self, v: T) -> (h: usize)
        ensures
            forall|j: int| 0 <= j < h ==> old(self)@[j] is Some,
            h <= old(self)@.len(),
            h < old(self)@.len() ==> old(self)@[h as int] is None && final(self)@ =~= old(
                self,
            )@.update(h as int, Some(v)),
            h == old(self)@.len() ==> final(self)@ =~= old(self)@.push(Some(v)),
            slot_live(final(self)@, h as int),
            final(self)@[h as int] == Some(v),
            h == first_free(old(self)@),
            final(self)@ =~= alloc_result(old(self)@, v),
    {
        let n = self.slots.len();
        let mut i: usize = 0;
        while i < n
            invariant
                i <= n,
                n == self@.len(),
                self@ == old(self)@,
                forall|j: int| 0 <= j < i ==> self@[j] is Some,
            decreases n - i,
        {
            if self.slots[i].is_none() {
                proof {
                    lemma_first_free_is(self@, i as int);
                }
                self.slots[i] = Some(v);
                return i;
            }
            i = i + 1;
        }
        proof {
            lemma_first_free_is(self@, n as int);
        }
        self.slots.push(Some(v));
        n
    }

    /// The contents of slot `h`: the payload when `h` names a live slot,
    /// nothing when the slot is freed or the handle was never issued.
    pub fn read(&self, h: usize) -> (r: Option<T>) where T: Copy
        ensures
            r == if h < self@.len() {
                self@[h as int]
            } else {
                None
            },
    {
        if h < self.slots.len() {
            self.slots[h]
        } else {
            None
        }
    }

    /// Free the slot named by `h`; a handle that names no live slot is
    /// ignored.  Returns whether a live slot was freed.
    pub fn free(&mut self, h: usize) -> (removed: bool)
        ensures
            removed == slot_live(old(self)@, h as int),
            removed ==> final(self)@ =~= old(self)@.update(h as int, None),
            !removed ==> final(self)@ =~= old(self)@,
    {
        if h < self.slots.len() && self.slots[h].is_some() {
            self.slots[h] = None;
            true
        } else {
            false
        }
    }

    /// Replace the payload of the live slot named by `h`; returns whether
    /// the slot was live.
    pub fn set(&mut self, h: usize, v: T) -> (updated: bool)
        ensures
            updated == slot_live(old(self)@, h as int),
            updated ==> final(self)@ =~= old(self)@.update(h as int, Some(v)),
            !updated ==> final(self)@ =~= old(self)@,
    {
        if h < self.slots.len() && self.slots[h].is_some() {
            self.slots[h] = Some(v);
            true
        } else {
            false
        }
    }

    /// A slot-for-slot copy of the arena.
    pub fn duplicate(&self) -> (r: Self) where T: Copy
        ensures
            r@ =~= self@,
    {
        let n = self.slots.len();
        let mut v: Vec<Option<T>> = Vec::new();
        let mut i: usize = 0;
        while i < n
            invariant
                i <= n,
                n == self@.len(),
                v@ =~= self@.take(i as int),
            decreases n - i,
        {
            v.push(self.slots[i]);
            i = i + 1;
        }
        SlotStore { slots: v }
    }

    /// Number of live slots.
    pub fn count(&self) -> (r: usize)
        ensures
            r == live_count(self@),
    {
        proof {
            lemma_live_count_le_len(self@);
        }
        let n = self.slots.len();
        let mut i: usize = 0;
        let mut c: usize = 0;
        while i < n
            invariant
                i <= n,
                n == self@.len(),
                c == live_count(self@.take(i as int)),
                c <= i,
            decreases n - i,
        {
            proof {
                assert(self@.take(i + 1).drop_last() =~= self@.take(i as int));
                lemma_live_count_le_len(self@.take(i + 1));
            }
            if self.slots[i].is_some() {
                c = c + 1;
            }
            i = i + 1;
        }
        proof {
            assert(self@.take(n as int) =~= self@);
        }
        c
    }

    /// One past the highest live slot: the bound below which every live
    /// handle lies.
    pub fn bound(&self) -> (r: usize)
        ensures
            r == live_bound(self@),
    {
        let mut b = self.slots.len();
        proof {
            assert(self@.take(b as int) =~= self@);
        }
        while b > 0 && self.slots[b - 1].is_none()
            invariant
                b <= self@.len(),
                live_bound(self@) == live_bound(self@.take(b as int)),
            decreases b,
        {
            proof {
                assert(self@.take(b as int).drop_last() =~= self@.take(b - 1));
            }
            b = b - 1;
        }
        proof {
            if b > 0 {
                assert(self@.take(b as int).last() is Some);
            }
        }
        b
    }
}

/// A live count never exceeds the arena length.
pub proof fn lemma_live_count_le_len<T>(s: Seq<Option<T>>)
    ensures
        live_count(s) <= s.len(),
    decreases s.len(),
{
    if s.len() > 0 {
        lemma_live_count_le_len(s.drop_last());
    }
}

/// A live bound never exceeds the arena length.
pub proof fn lemma_live_bound_le_len<T>(s: Seq<Option<T>>)
    ensures
        live_bound(s) <= s.len(),
    decreases s.len(),
{
    if s.len() > 0 && s.last() is None {
        lemma_live_bound_le_len(s.drop_last());
    }
}

/// Every live slot lies below the live bound, and the slot just below a
/// positive live bound is live.
pub proof fn lemma_live_bound_facts<T>(s: Seq<Option<T>>)
    ensures
        forall|i: int| slot_live(s, i) ==> i < live_bound(s),
        live_bound(s) > 0 ==> slot_live(s, live_bound(s) - 1),
    decreases s.len(),
{
    lemma_live_bound_le_len(s);
    if s.len() > 0 && s.last() is None {
        lemma_live_bound_facts(s.drop_last());
        assert forall|i: int| slot_live(s, i) implies i < live_bound(s) by {
            if i < s.len() - 1 {
                assert(slot_live(s.drop_last(), i));
            }
        }
    }
}

/// Whether the live slots form an unbroken prefix: every handle below the
/// live count is live.  This holds of any container whose holes have all
/// been refilled, and in particular of one that never had a removal.
pub open spec fn contiguous_live<T>(s: Seq<Option<T>>) -> bool {
    forall|i: int| 0 <= i < live_count(s) ==> slot_live(s, i)
}

/// Counting a prefix never exceeds counting the whole arena.
pub proof fn lemma_live_count_take_le<T>(s: Seq<Option<T>>, k: int)
    requires
        0 <= k <= s.len(),
    ensures
        live_count(s.take(k)) <= live_count(s),
    decreases s.len() - k,
{
    if k == s.len() {
        assert(s.take(k) =~= s);
    } else {
        assert(s.take(k + 1).drop_last() =~= s.take(k));
        lemma_live_count_take_le(s, k + 1);
    }
}

/// A fully live prefix counts its own length.
pub proof fn lemma_live_prefix_count<T>(s: Seq<Option<T>>, k: int)
    requires
        0 <= k <= s.len(),
        forall|i: int| 0 <= i < k ==> slot_live(s, i),
    ensures
        live_count(s.take(k)) == k,
    decreases k,
{
    if k > 0 {
        assert(s.take(k).drop_last() =~= s.take(k - 1));
        assert(slot_live(s, k - 1));
        lemma_live_prefix_count(s, k - 1);
    }
}

/// On an arena whose live slots form an unbroken prefix, the next
/// allocation lands exactly at the live count.
pub proof fn lemma_contiguous_first_free<T>(s: Seq<Option<T>>)
    requires
        contiguous_live(s),
    ensures
        first_free(s) == live_count(s),
    decreases s.len(),
{
    let c = live_count(s) as int;
    lemma_live_count_le_len(s);
    assert forall|j: int| 0 <= j < c implies s[j] is Some by {
        assert(slot_live(s, j));
    }
    if c < s.len() && s[c] is Some {
        lemma_live_prefix_count(s, c + 1);
        lemma_live_count_take_le(s, c + 1);
        assert(false);
    }
    lemma_first_free_is(s, c);
}

/// A live count never exceeds the live bound: every live slot lies below
/// the bound, so at most `live_bound` slots can be live.
pub proof fn lemma_live_count_le_bound<T>(s: Seq<Option<T>>)
    ensures
        live_count(s) <= live_bound(s),
    decreases s.len(),
{
    if s.len() > 0 {
        lemma_live_count_le_bound(s.drop_last());
        if s.last() is Some {
            lemma_live_count_le_len(s.drop_last());
            lemma_live_bound_le_len(s.drop_last());
        }
    }
}

/// When nothing at or above `l` is live, counting and bounding may ignore
/// the tail.
pub proof fn lemma_live_trailing<T>(s: Seq<Option<T>>, l: int)
    requires
        0 <= l <= s.len(),
        forall|i: int| l <= i < s.len() ==> !slot_live(s, i),
    ensures
        live_count(s) == live_count(s.take(l)),
        live_bound(s) == live_bound(s.take(l)),
    decreases s.len() - l,
{
    if l == s.len() {
        assert(s.take(l) =~= s);
    } else {
        assert(!slot_live(s, s.len() - 1));
        assert(s.drop_last().take(l) =~= s.take(l));
        assert forall|i: int| l <= i < s.drop_last().len() implies !slot_live(
            s.drop_last(),
            i,
        ) by {
            assert(!slot_live(s, i));
        }
        lemma_live_trailing(s.drop_last(), l);
    }
}

/// Bounding live slots is the same on two pointwise-equal-liveness arenas
/// of the same length.
pub proof fn lemma_live_bound_congruent<T, U>(s: Seq<Option<T>>, t: Seq<Option<U>>)
    requires
        s.len() == t.len(),
        forall|i: int| 0 <= i < s.len() ==> (s[i] is Some <==> t[i] is Some),
    ensures
        live_bound(s) == live_bound(t),
    decreases s.len(),
{
    if s.len() > 0 && s.last() is None {
        assert(forall|i: int|
            0 <= i < s.drop_last().len() ==> (s.drop_last()[i] is Some <==> t.drop_last()[i]
                is Some));
        lemma_live_bound_congruent(s.drop_last(), t.drop_last());
    }
}

/// Two arenas whose slots are live at exactly the same handles have the
/// same live count and the same live bound, whatever their lengths.
pub proof fn lemma_live_shape_eq<T, U>(s: Seq<Option<T>>, t: Seq<Option<U>>)
    requires
        forall|i: int| slot_live(s, i) <==> slot_live(t, i),
    ensures
        live_count(s) == live_count(t),
        live_bound(s) == live_bound(t),
{
    let l = if s.len() <= t.len() {
        s.len() as int
    } else {
        t.len() as int
    };
    assert forall|i: int| l <= i < s.len() implies !slot_live(s, i) by {
        assert(!slot_live(t, i));
    }
    assert forall|i: int| l <= i < t.len() implies !slot_live(t, i) by {
        assert(!slot_live(s, i));
    }
    lemma_live_trailing(s, l);
    lemma_live_trailing(t, l);
    assert forall|i: int| 0 <= i < l implies (s.take(l)[i] is Some <==> t.take(l)[i]
        is Some) by {
        assert(slot_live(s, i) <==> slot_live(t, i));
    }
    lemma_live_count_congruent(s.take(l), t.take(l));
    lemma_live_bound_congruent(s.take(l), t.take(l));
}

/// Counting live slots is the same on two pointwise-equal-liveness arenas.
pub proof fn lemma_live_count_congruent<T, U>(s: Seq<Option<T>>, t: Seq<Option<U>>)
    requires
        s.len() == t.len(),
        forall|i: int| 0 <= i < s.len() ==> (s[i] is Some <==> t[i] is Some),
    ensures
        live_count(s) == live_count(t),
    decreases s.len(),
{
    if s.len() > 0 {
        assert(forall|i: int|
            0 <= i < s.drop_last().len() ==> (s.drop_last()[i] is Some <==> t.drop_last()[i]
                is Some));
        lemma_live_count_congruent(s.drop_last(), t.drop_last());
    }
}

/// A live count is unchanged when one live slot is overwritten with a new
/// payload, drops by one when a live slot is freed, and grows by one when a
/// free slot is filled.
pub proof fn lemma_live_count_update<T>(s: Seq<Option<T>>, i: int, v: Option<T>)
    requires
        0 <= i < s.len(),
    ensures
        s[i] is Some && v is Some ==> live_count(s.update(i, v)) == live_count(s),
        s[i] is Some && v is None ==> live_count(s.update(i, v)) + 1 == live_count(s),
        s[i] is None && v is Some ==> live_count(s.update(i, v)) == live_count(s) + 1,
        s[i] is None && v is None ==> live_count(s.update(i, v)) == live_count(s),
    decreases s.len(),
{
    if i == s.len() - 1 {
        assert(s.update(i, v).drop_last() =~= s.drop_last());
    } else {
        assert(s.update(i, v).drop_last() =~= s.drop_last().update(i, v));
        lemma_live_count_update(s.drop_last(), i, v);
    }
}

/// Pushing a live slot raises the count by one; pushing a tombstone leaves
/// it alone.
pub proof fn lemma_live_count_push<T>(s: Seq<Option<T>>, v: Option<T>)
    ensures
        v is Some ==> live_count(s.push(v)) == live_count(s) + 1,
        v is None ==> live_count(s.push(v)) == live_count(s),
{
    assert(s.push(v).drop_last() =~= s);
}

} // verus!
