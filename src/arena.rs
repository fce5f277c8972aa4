use vstd::prelude::*;

use crate::slot::{
    chain_slot, lemma_live_update, lemma_live_vacant, lemma_live_append, lemma_values_step, live_values,
    slot_value, values_from, Slot,
};

verus! {

/// A slot-based arena: values are stored in a vector of slots and handed
/// back as small integer ids; vacant slots form a list threaded through
/// the vector itself.
pub struct VecPigeonhole<T> {
    free: Option<usize>,
    slots: Vec<Slot<T>>,
    /// The ids of the free list, in the order in which the links visit them.
    free_order: Ghost<Seq<usize>>,
}

impl<T> View for VecPigeonhole<T> {
    type V = Seq<Option<T>>;

    /// Slot by slot, the value held there, or `None` where the slot is vacant.
    closed spec fn view(&self) -> Seq<Option<T>> {
        self.slots@.map_values(|s: Slot<T>| slot_value(s))
    }
}

impl<T> VecPigeonhole<T> {
    /// The vacant ids in the order in which insertion will reuse them.
    pub closed spec fn free_ids(&self) -> Seq<usize> {
        self.free_order@
    }

    /// The value stored under `id`, if `id` names a live slot.
    pub open spec fn lookup(&self, id: int) -> Option<T> {
        if 0 <= id < self@.len() {
            self@[id]
        } else {
            None
        }
    }

    /// The free list starts at `free` and follows the links through exactly
    /// the ids of `free_order`, each once, ending in an empty link.
    closed spec fn links_ok(&self) -> bool {
        let fo = self.free_order@;
        let s = self.slots@;
        &&& s.len() <= usize::MAX
        &&& self.free == (if fo.len() == 0 { None::<usize> } else { Some(fo[0]) })
        &&& fo.no_duplicates()
        &&& forall|k: int| 0 <= k < fo.len() ==> #[trigger] fo[k] < s.len()
        &&& forall|k: int|
            0 <= k < fo.len() ==> s[#[trigger] fo[k] as int] == Slot::<T>::Free(
                if k + 1 < fo.len() { Some(fo[k + 1]) } else { None },
            )
    }

    /// The arena is well formed: the free list visits every vacant slot.
    pub closed spec fn wf(&self) -> bool {
        &&& self.links_ok()
        &&& forall|i: int|
            0 <= i < self.slots@.len() && (#[trigger] self.slots@[i] is Free) ==> self.free_order@.contains(
                i as usize,
            )
    }

    /// An insertion fits the machine: when it has to grow, the arena's
    /// length doubles plus one, which must stay a `usize`.
    pub open spec fn can_insert(&self) -> bool {
        self.free_ids().len() == 0 ==> 2 * self@.len() + 1 <= usize::MAX
    }

    /// `after` is `before` once a slot has been taken for `fill`, by the
    /// rule of insertion: the head of the free list if there is one, else
    /// the first slot of a chain as long as the arena plus one, appended.
    pub open spec fn took_slot(before: Self, after: Self, fill: Option<T>, id: usize) -> bool {
        let len = before@.len();
        if before.free_ids().len() > 0 {
            &&& id == before.free_ids()[0]
            &&& after@ == before@.update(id as int, fill)
            &&& after.free_ids() == before.free_ids().drop_first()
        } else {
            &&& id == len
            &&& after@ == before@.push(fill) + Seq::new(len, |k: int| None::<T>)
            &&& after.free_ids() == Seq::new(len, |k: int| (len + 1 + k) as usize)
        }
    }

    /// `after` is `before` with the live slot `id` holding `v`.
    pub closed spec fn refilled(before: Self, after: Self, id: usize, v: T) -> bool {
        &&& before.wf()
        &&& id < before.slots@.len()
        &&& before.slots@[id as int] is Used
        &&& after.slots@ == before.slots@.update(id as int, Slot::Used(v))
        &&& after.free == before.free
        &&& after.free_order == before.free_order
    }

    /// Giving a live slot a new value keeps the arena well formed and
    /// changes only that position of the view.
    proof fn lemma_refill(before: Self, after: Self, id: usize, v: T)
        requires
            before.wf(),
            id < before.slots@.len(),
            before.slots@[id as int] is Used,
            after.slots@ == before.slots@.update(id as int, Slot::Used(v)),
            after.free == before.free,
            after.free_order == before.free_order,
        ensures
            after.wf(),
            after@ == before@.update(id as int, Some(v)),
            after.free_ids() == before.free_ids(),
    {
        let fo = before.free_order@;
        assert forall|k: int| 0 <= k < fo.len() implies #[trigger] fo[k] != id by {
            assert(before.slots@[fo[k] as int] is Free);
        }
        assert(after@ =~= before@.update(id as int, Some(v)));
    }

    /// The ids of the free list lie within the arena.
    pub(crate) proof fn lemma_free_ids_in_range(&self)
        requires
            self.wf(),
        ensures
            forall|k: int| 0 <= k < self.free_ids().len() ==> #[trigger] self.free_ids()[k] < self@.len(),
    {
    }

    /// The ids of the free list hold no value.
    pub(crate) proof fn lemma_free_slots_vacant(&self)
        requires
            self.wf(),
        ensures
            forall|k: int| 0 <= k < self.free_ids().len() ==> #[trigger] self@[self.free_ids()[k] as int] is None,
    {
        assert forall|k: int| 0 <= k < self.free_ids().len() implies #[trigger] self@[self.free_ids()[k] as int] is None by {
            self.lemma_view_index(self.free_order@[k] as int);
        }
    }

    /// The free list holds each vacant id exactly once and nothing else, so
    /// following its links from the head neither loops nor misses a vacant
    /// slot.
    pub proof fn lemma_free_list_exact(&self)
        requires
            self.wf(),
        ensures
            self.free_ids().no_duplicates(),
            forall|k: int| 0 <= k < self.free_ids().len() ==> #[trigger] self.free_ids()[k] < self@.len(),
            forall|i: int|
                0 <= i < self@.len() ==> (#[trigger] self@[i] is None <==> self.free_ids().contains(i as usize)),
    {
        self.lemma_free_slots_vacant();
        assert forall|i: int| 0 <= i < self@.len() implies (#[trigger] self@[i] is None
            <==> self.free_ids().contains(i as usize)) by {
            self.lemma_view_index(i);
            if self.free_ids().contains(i as usize) {
                let k = choose|k: int| 0 <= k < self.free_ids().len() && self.free_ids()[k] == i as usize;
                assert(self@[self.free_ids()[k] as int] is None);
            }
        }
    }

    proof fn lemma_view_index(&self, i: int)
        requires
            0 <= i < self.slots@.len(),
        ensures
            self@.len() == self.slots@.len(),
            self@[i] == slot_value(self.slots@[i]),
    {
    }

    /// The live values in ascending order of id.
    pub open spec fn values(&self) -> Seq<T> {
        live_values(self@)
    }

    /// How many values the arena holds.
    pub open spec fn live_count(&self) -> nat {
        self.values().len()
    }

    /// Taking a vacant slot for `fill` adds one live value if `fill` is one.
    proof fn lemma_took_slot_count(before: Self, after: Self, fill: Option<T>, id: usize)
        requires
            before.wf(),
            Self::took_slot(before, after, fill, id),
        ensures
            before.lookup(id as int) is None,
            after.live_count() == before.live_count() + (if fill is Some { 1int } else { 0 }),
    {
        let len = before@.len();
        if before.free_ids().len() > 0 {
            before.lemma_free_ids_in_range();
            before.lemma_free_slots_vacant();
            assert(before.free_ids()[0] == id);
            lemma_live_update(before@, id as int, fill);
        } else {
            let tail = Seq::new(len, |k: int| None::<T>);
            lemma_live_append(before@.push(fill), tail);
            lemma_live_append(before@, seq![fill]);
            assert(before@ + seq![fill] =~= before@.push(fill));
            lemma_live_vacant::<T>(len);
            assert(seq![fill].drop_first() =~= Seq::<Option<T>>::empty());
            assert(live_values(Seq::<Option<T>>::empty()) =~= Seq::<T>::empty());
        }
    }

    /// An empty arena: no slots, and an empty free list.
    pub fn new() -> (r: Self)
        ensures
            r.wf(),
            r@ == Seq::<Option<T>>::empty(),
            r.free_ids() == Seq::<usize>::empty(),
    {
        let r = VecPigeonhole { free: None, slots: Vec::new(), free_order: Ghost(Seq::empty()) };
        assert(r@ =~= Seq::<Option<T>>::empty());
        r
    }

    /// Puts `fill` into slot `id` and hands back what was there.
    fn replace_slot(&mut self, id: usize, fill: Slot<T>) -> (prev: Slot<T>)
        requires
            id < old(self).slots@.len(),
        ensures
            prev == old(self).slots@[id as int],
            final(self).slots@ == old(self).slots@.update(id as int, fill),
            final(self).free == old(self).free,
            final(self).free_order == old(self).free_order,
    {
        let mut prev = fill;
        core::mem::swap(&mut self.slots[id], &mut prev);
        prev
    }

    /// Takes the head of a non-empty free list and fills it with `fill`.
    fn take_head(&mut self, fill: Slot<T>) -> (id: usize)
        requires
            old(self).links_ok(),
            old(self).free_order@.len() > 0,
        ensures
            final(self).links_ok(),
            id == old(self).free_order@[0],
            final(self).slots@ == old(self).slots@.update(id as int, fill),
            final(self).free_order@ == old(self).free_order@.drop_first(),
    {
        let id = match self.free {
            Some(id) => id,
            None => { proof { assert(false); } 0 },
        };
        let ghost fo = self.free_order@;
        assert(self.slots@[fo[0] as int] == Slot::<T>::Free(
            if 1 < fo.len() { Some(fo[1]) } else { None },
        ));
        let prev = self.replace_slot(id, fill);
        let next = match prev {
            Slot::Free(next) => next,
            Slot::Used(_) => { proof { assert(false); } None },
        };
        self.free = next;
        self.free_order = Ghost(fo.drop_first());
        proof {
            let nfo = self.free_order@;
            let s = self.slots@;
            assert forall|k: int| 0 <= k < nfo.len() implies s[#[trigger] nfo[k] as int] == Slot::<T>::Free(
                if k + 1 < nfo.len() { Some(nfo[k + 1]) } else { None },
            ) by {
                assert(nfo[k] == fo[k + 1]);
                assert(fo[k + 1] != fo[0]);
                assert(s[nfo[k] as int] == old(self).slots@[fo[k + 1] as int]);
            }
            assert forall|k: int| 0 <= k < nfo.len() implies #[trigger] nfo[k] < s.len() by {
                assert(nfo[k] == fo[k + 1]);
            }
        }
        id
    }

    /// Takes a slot by the rule of insertion, growing the arena first when
    /// no slot is vacant, and fills it with `fill`.
    fn take_slot(&mut self, fill: Slot<T>) -> (id: usize)
        requires
            old(self).wf(),
            old(self).can_insert(),
        ensures
            final(self).links_ok(),
            id < final(self).slots@.len(),
            final(self).slots@[id as int] == fill,
            !final(self).free_order@.contains(id),
            forall|i: int|
                0 <= i < final(self).slots@.len() && i != id && (#[trigger] final(self).slots@[i] is Free)
                    ==> final(self).free_order@.contains(i as usize),
            Self::took_slot(*old(self), *final(self), slot_value(fill), id),
    {
        let ghost before = *self;
        if self.free.is_none() {
            self.grow();
        }
        let ghost grown = *self;
        let id = self.take_head(fill);
        proof {
            let s = self.slots@;
            let fo = self.free_order@;
            let len = before.slots@.len();
            assert(grown.free_order@.no_duplicates());
            assert forall|i: int| 0 <= i < s.len() && i != id && (#[trigger] s[i] is Free)
                implies fo.contains(i as usize) by {
                assert(grown.slots@[i] is Free);
                assert(grown.free_order@.contains(i as usize));
                let k = choose|k: int| 0 <= k < grown.free_order@.len() && grown.free_order@[k] == i as usize;
                assert(grown.free_order@[0] == id);
                assert(k != 0);
                assert(fo[k - 1] == i as usize);
            }
            assert(!fo.contains(id)) by {
                if fo.contains(id) {
                    let k = choose|k: int| 0 <= k < fo.len() && fo[k] == id;
                    assert(grown.free_order@[k + 1] == grown.free_order@[0]);
                }
            }
            if before.free_order@.len() > 0 {
                assert(self@ =~= before@.update(id as int, slot_value(fill)));
            } else {
                assert(self@ =~= before@.push(slot_value(fill)) + Seq::new(len, |k: int| None::<T>));
                assert(fo =~= Seq::new(len, |k: int| (len + 1 + k) as usize));
            }
        }
        id
    }

    /// Stores `item` and returns its id: the most recently vacated slot if
    /// there is one, else the first slot of a newly appended chain.
    pub fn insert(&mut self, item: T) -> (id: usize)
        requires
            old(self).wf(),
            old(self).can_insert(),
        ensures
            final(self).wf(),
            old(self).lookup(id as int) is None,
            final(self).lookup(id as int) == Some(item),
            final(self).live_count() == old(self).live_count() + 1,
            Self::took_slot(*old(self), *final(self), Some(item), id),
    {
        let ghost before = *self;
        let id = self.take_slot(Slot::Used(item));
        proof { Self::lemma_took_slot_count(before, *self, Some(item), id); }
        id
    }

    /// `after` is `before` once `remove(id)` has returned `r`: on success
    /// the slot is vacant and heads the free list, else nothing changed.
    pub open spec fn removed(before: Self, after: Self, id: usize, r: Result<T, ()>) -> bool {
        match r {
            Ok(v) => {
                &&& before.lookup(id as int) == Some(v)
                &&& after@ == before@.update(id as int, None)
                &&& after.free_ids() == seq![id] + before.free_ids()
            },
            Err(_) => {
                &&& before.lookup(id as int) is None
                &&& after == before
            },
        }
    }

    /// Takes the value stored under `id` out of the arena; the slot becomes
    /// the head of the free list. Fails, changing nothing, where `id` is out
    /// of range or vacant.
    pub fn remove(&mut self, id: usize) -> (r: Result<T, ()>)
        requires
            old(self).wf(),
        ensures
            final(self).wf(),
            r is Ok <==> old(self).lookup(id as int) is Some,
            r is Ok ==> final(self).live_count() + 1 == old(self).live_count(),
            r is Err ==> final(self).live_count() == old(self).live_count(),
            Self::removed(*old(self), *final(self), id, r),
    {
        if id >= self.slots.len() {
            return Err(());
        }
        proof { self.lemma_view_index(id as int); }
        if let Slot::Free(_) = &self.slots[id] {
            return Err(());
        }
        proof {
            let fo = self.free_order@;
            assert forall|k: int| 0 <= k < fo.len() implies #[trigger] fo[k] != id by {
                assert(self.slots@[fo[k] as int] is Free);
            }
        }
        let ghost before = *self;
        let prev = self.vacate(id);
        proof {
            assert(self@ =~= before@.update(id as int, None));
            lemma_live_update(before@, id as int, None);
        }
        match prev {
            Slot::Used(v) => Ok(v),
            Slot::Free(_) => { proof { assert(false); } Err(()) },
        }
    }

    /// The value stored under `id`, or `None` where `id` is out of range or
    /// vacant.
    pub fn get(&self, id: usize) -> (r: Option<&T>)
        ensures
            match r {
                Some(x) => self.lookup(id as int) == Some(*x),
                None => self.lookup(id as int) is None,
            },
    {
        if id >= self.slots.len() {
            return None;
        }
        proof { self.lemma_view_index(id as int); }
        match &self.slots[id] {
            Slot::Free(_) => None,
            Slot::Used(item) => Some(item),
        }
    }

    /// A mutable reference to the value stored under `id`, or `None` where
    /// `id` is out of range or vacant.
    pub fn get_mut(&mut self, idx: usize) -> (r: Option<&mut T>)
        requires
            old(self).wf(),
        ensures
            r matches Some(x) ==> old(self).lookup(idx as int) == Some(*x),
            r matches Some(x) ==> Self::refilled(*old(self), *final(self), idx, *final(x)),
            r matches Some(x) ==> final(self).wf(),
            r matches Some(x) ==> final(self)@ == old(self)@.update(idx as int, Some(*final(x))),
            r matches Some(x) ==> final(self).free_ids() == old(self).free_ids(),
            r is None ==> old(self).lookup(idx as int) is None,
            r is None ==> *final(self) == *old(self),
    {
        if idx >= self.slots.len() {
            return None;
        }
        proof { self.lemma_view_index(idx as int); }
        let ghost before = *self;
        proof {
            assert forall|after: Self, v: T| #[trigger] Self::refilled(before, after, idx, v) implies {
                &&& after.wf()
                &&& after@ == before@.update(idx as int, Some(v))
                &&& after.free_ids() == before.free_ids()
            } by {
                Self::lemma_refill(before, after, idx, v);
            }
        }
        if let Slot::Free(_) = &self.slots[idx] {
            return None;
        }
        match &mut self.slots[idx] {
            Slot::Free(_) => {
                proof { assert(false); }
                None
            },
            Slot::Used(item) => Some(item),
        }
    }

    /// The arena while a reservation of `id` is outstanding: well formed
    /// but for slot `id`, which is vacant and outside the free list.
    pub closed spec fn reserving(&self, id: usize) -> bool {
        &&& self.links_ok()
        &&& id < self.slots@.len()
        &&& self.slots@[id as int] == Slot::<T>::Free(None)
        &&& !self.free_order@.contains(id)
        &&& forall|i: int|
            0 <= i < self.slots@.len() && i != id && (#[trigger] self.slots@[i] is Free)
                ==> self.free_order@.contains(i as usize)
    }

    /// Allocates a slot as `insert` would, without a value yet: the handle
    /// gives its id at once, and `set` or `abort` ends the reservation.
    pub fn reserve(&mut self) -> (r: Reservation<'_, T>)
        requires
            old(self).wf(),
            old(self).can_insert(),
        ensures
            r.wf(),
            Self::took_slot(*old(self), *r.pigeonhole, None, r.id),
            old(self).lookup(r.id as int) is None,
            r.pigeonhole.live_count() == old(self).live_count(),
            *final(self) == *final(r.pigeonhole),
    {
        let ghost before = *self;
        let id = self.take_slot(Slot::Free(None));
        proof { Self::lemma_took_slot_count(before, *self, None, id); }
        Reservation { pigeonhole: self, id }
    }

    /// The live values by reference, in ascending order of id.
    pub fn iter(&self) -> (r: Iter<'_, T>)
        ensures
            r.wf(),
            r.remaining() == self.values(),
    {
        let r = Iter { slots: &self.slots, pos: 0 };
        proof {
            assert(self.slots@.subrange(0, self.slots@.len() as int) =~= self.slots@);
        }
        r
    }

    /// The live values, taken out of the arena, in ascending order of id.
    pub fn into_iter(self) -> (r: IntoIter<T>)
        ensures
            r.wf(),
            r.remaining() == self.values(),
    {
        let r = IntoIter { slots: self.slots, pos: 0 };
        proof {
            assert(self.slots@.subrange(0, self.slots@.len() as int) =~= self.slots@);
        }
        r
    }

    /// Makes slot `id`, which the free list does not hold, the head of the
    /// free list, and hands back what the slot held.
    fn vacate(&mut self, id: usize) -> (prev: Slot<T>)
        requires
            old(self).links_ok(),
            id < old(self).slots@.len(),
            !old(self).free_order@.contains(id),
            forall|i: int|
                0 <= i < old(self).slots@.len() && i != id && (#[trigger] old(self).slots@[i] is Free)
                    ==> old(self).free_order@.contains(i as usize),
        ensures
            final(self).wf(),
            prev == old(self).slots@[id as int],
            final(self).slots@ == old(self).slots@.update(id as int, Slot::Free(old(self).free)),
            final(self).free_order@ == seq![id] + old(self).free_order@,
    {
        let ghost before = *self;
        let fo = self.free_order;
        let prev = self.replace_slot(id, Slot::Free(self.free));
        self.free = Some(id);
        self.free_order = Ghost(seq![id] + fo@);
        proof {
            let nfo = self.free_order@;
            let s = self.slots@;
            assert(!fo@.contains(id));
            assert forall|k: int| 0 <= k < nfo.len() implies #[trigger] nfo[k] < s.len() by {
                if k > 0 { assert(nfo[k] == fo@[k - 1]); }
            }
            assert forall|k: int| 0 <= k < nfo.len() implies s[#[trigger] nfo[k] as int] == Slot::<T>::Free(
                if k + 1 < nfo.len() { Some(nfo[k + 1]) } else { None },
            ) by {
                if k > 0 {
                    assert(nfo[k] == fo@[k - 1]);
                    if k + 1 < nfo.len() {
                        assert(nfo[k + 1] == fo@[k]);
                    }
                }
            }
            assert(nfo.no_duplicates()) by {
                assert forall|a: int, b: int| 0 <= a < nfo.len() && 0 <= b < nfo.len() && a != b
                    implies nfo[a] != nfo[b] by {
                    if a > 0 && b > 0 {
                        assert(nfo[a] == fo@[a - 1] && nfo[b] == fo@[b - 1]);
                    } else if a == 0 {
                        assert(nfo[b] == fo@[b - 1]);
                    } else {
                        assert(nfo[a] == fo@[a - 1]);
                    }
                }
            }
            assert forall|i: int| 0 <= i < s.len() && (#[trigger] s[i] is Free) implies nfo.contains(
                i as usize,
            ) by {
                if i != id {
                    assert(before.slots@[i] is Free);
                    let k = choose|k: int| 0 <= k < fo@.len() && fo@[k] == i as usize;
                    assert(nfo[k + 1] == i as usize);
                } else {
                    assert(nfo[0] == id);
                }
            }
        }
        prev
    }

    /// Appends a chain of vacant slots as long as the arena plus one and
    /// makes it the free list.
    fn grow(&mut self)
        requires
            old(self).wf(),
            old(self).free_ids().len() == 0,
            2 * old(self).slots@.len() + 1 <= usize::MAX,
        ensures
            final(self).wf(),
            final(self).slots@ == old(self).slots@ + Seq::new(
                old(self).slots@.len() + 1,
                |k: int| chain_slot::<T>(old(self).slots@.len(), k),
            ),
            final(self).free_ids() == Seq::new(
                old(self).slots@.len() + 1,
                |k: int| (old(self).slots@.len() + k) as usize,
            ),
    {
        let len = self.slots.len();
        let ghost start = self.slots@;
        let mut k: usize = 0;
        while k <= len
            invariant
                len == start.len(),
                2 * len + 1 <= usize::MAX,
                k <= len + 1,
                self.slots@ == start + Seq::new(k as nat, |j: int| chain_slot::<T>(len as nat, j)),
            decreases len + 1 - k,
        {
            let next = if k < len {
                Some(len + k + 1)
            } else {
                None
            };
            self.slots.push(Slot::Free(next));
            proof {
                assert(self.slots@ =~= start + Seq::new(
                    (k + 1) as nat,
                    |j: int| chain_slot::<T>(len as nat, j),
                ));
            }
            k = k + 1;
        }
        self.free = Some(len);
        self.free_order = Ghost(Seq::new((len + 1) as nat, |j: int| (len + j) as usize));
        proof {
            let fo = self.free_order@;
            let s = self.slots@;
            assert forall|k: int| 0 <= k < fo.len() implies s[fo[k] as int] == Slot::<T>::Free(
                if k + 1 < fo.len() { Some(fo[k + 1]) } else { None },
            ) by {
                assert(s[fo[k] as int] == chain_slot::<T>(len as nat, k));
            }
            assert forall|i: int| 0 <= i < s.len() && (#[trigger] s[i] is Free) implies fo.contains(
                i as usize,
            ) by {
                if i < len {
                    assert(start[i] is Free);
                    assert(false);
                } else {
                    assert(fo[i - len] == i as usize);
                }
            }
        }
    }
}

impl<T> Default for VecPigeonhole<T> {
    /// The same empty arena as `new`.
    fn default() -> (r: Self)
        ensures
            r.wf(),
            r@ == Seq::<Option<T>>::empty(),
            r.free_ids() == Seq::<usize>::empty(),
    {
        Self::new()
    }
}

/// A slot taken from the arena before its value exists. The handle holds
/// the arena exclusively until `set` stores the value or `abort` hands the
/// slot back to the free list; a verified caller cannot let it go otherwise,
/// since the arena is not well formed while the reservation stands.
pub struct Reservation<'a, T> {
    /// The arena, borrowed for as long as the reservation stands.
    pub pigeonhole: &'a mut VecPigeonhole<T>,
    /// The reserved slot.
    pub id: usize,
}

impl<'a, T> Reservation<'a, T> {
    /// The reservation stands: its slot is taken and holds no value yet.
    pub open spec fn wf(&self) -> bool {
        self.pigeonhole.reserving(self.id)
    }

    /// The id of the reserved slot.
    pub fn id(&self) -> (r: usize)
        ensures
            r == self.id,
    {
        self.id
    }

    /// Stores `value` in the reserved slot, which becomes live.
    pub fn set(self, value: T)
        requires
            self.wf(),
        ensures
            final(self.pigeonhole).wf(),
            final(self.pigeonhole)@ == old(self.pigeonhole)@.update(self.id as int, Some(value)),
            final(self.pigeonhole).free_ids() == old(self.pigeonhole).free_ids(),
            final(self.pigeonhole).live_count() == old(self.pigeonhole).live_count() + 1,
    {
        let Reservation { pigeonhole, id } = self;
        let ghost before = *pigeonhole;
        pigeonhole.replace_slot(id, Slot::Used(value));
        proof {
            assert(pigeonhole@ =~= before@.update(id as int, Some(value)));
            before.lemma_view_index(id as int);
            lemma_live_update(before@, id as int, Some(value));
        }
    }

    /// Gives the reserved slot back: it becomes the head of the free list,
    /// so the next insertion takes it again.
    pub fn abort(self)
        requires
            self.wf(),
        ensures
            final(self.pigeonhole).wf(),
            final(self.pigeonhole)@ == old(self.pigeonhole)@,
            final(self.pigeonhole).free_ids() == seq![self.id] + old(self.pigeonhole).free_ids(),
    {
        let Reservation { pigeonhole, id } = self;
        let ghost before = *pigeonhole;
        pigeonhole.vacate(id);
        proof {
            pigeonhole.lemma_view_index(id as int);
            before.lemma_view_index(id as int);
            assert(pigeonhole@ =~= before@);
        }
    }
}

/// Walks the live values of an arena by reference, in ascending order of id.
pub struct Iter<'a, T> {
    slots: &'a Vec<Slot<T>>,
    pos: usize,
}

impl<'a, T> Iter<'a, T> {
    /// The position lies within the slots.
    pub closed spec fn wf(&self) -> bool {
        self.pos <= self.slots@.len()
    }

    /// The values still to come.
    pub closed spec fn remaining(&self) -> Seq<T> {
        values_from(self.slots@, self.pos as int)
    }

    /// The next live value, or `None` once all have been given.
    pub fn next(&mut self) -> (r: Option<&'a T>)
        requires
            old(self).wf(),
        ensures
            final(self).wf(),
            old(self).remaining().len() == 0 ==> r is None && final(self).remaining() == old(self).remaining(),
            old(self).remaining().len() > 0 ==> r is Some,
            old(self).remaining().len() > 0 ==> final(self).remaining() == old(self).remaining().drop_first(),
            r matches Some(x) ==> *x == old(self).remaining()[0],
    {
        let slots: &'a Vec<Slot<T>> = self.slots;
        while self.pos < slots.len()
            invariant
                self.slots == slots,
                self.pos <= slots@.len(),
                self.remaining() == old(self).remaining(),
            decreases slots@.len() - self.pos,
        {
            let p = self.pos;
            self.pos = p + 1;
            proof { lemma_values_step(slots@, p as int); }
            match &slots[p] {
                Slot::Used(v) => { return Some(v); },
                Slot::Free(_) => {},
            }
        }
        proof {
            assert(slots@.subrange(self.pos as int, slots@.len() as int).len() == 0);
        }
        None
    }
}

/// Takes the live values out of an arena, in ascending order of id.
pub struct IntoIter<T> {
    slots: Vec<Slot<T>>,
    pos: usize,
}

impl<T> IntoIter<T> {
    /// The position lies within the slots.
    pub closed spec fn wf(&self) -> bool {
        self.pos <= self.slots@.len()
    }

    /// The values still to come.
    pub closed spec fn remaining(&self) -> Seq<T> {
        values_from(self.slots@, self.pos as int)
    }

    /// The next live value, or `None` once all have been given.
    pub fn next(&mut self) -> (r: Option<T>)
        requires
            old(self).wf(),
        ensures
            final(self).wf(),
            old(self).remaining().len() == 0 ==> r is None && final(self).remaining() == old(self).remaining(),
            old(self).remaining().len() > 0 ==> r == Some(old(self).remaining()[0]),
            old(self).remaining().len() > 0 ==> final(self).remaining() == old(self).remaining().drop_first(),
    {
        let ghost start = self.remaining();
        while self.pos < self.slots.len()
            invariant
                self.pos <= self.slots@.len(),
                self.remaining() == start,
                start == old(self).remaining(),
            decreases self.slots@.len() - self.pos,
        {
            let p = self.pos;
            let ghost before = self.slots@;
            proof { lemma_values_step(before, p as int); }
            let mut taken = Slot::Free(None);
            core::mem::swap(&mut self.slots[p], &mut taken);
            self.pos = p + 1;
            proof {
                assert(self.slots@.subrange(p + 1, self.slots@.len() as int)
                    =~= before.subrange(p + 1, before.len() as int));
            }
            match taken {
                Slot::Used(v) => { return Some(v); },
                Slot::Free(_) => {},
            }
        }
        proof {
            assert(self.slots@.subrange(self.pos as int, self.slots@.len() as int).len() == 0);
        }
        None
    }
}

} // verus!
