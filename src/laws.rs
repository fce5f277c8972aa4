//! Properties that relate several operations of the arena, stated over
//! the contracts of those operations.

use vstd::prelude::*;

use crate::arena::VecPigeonhole;

verus! {

/// A value inserted into a well-formed arena is found under the id that
/// insertion returned.
pub proof fn lemma_insert_then_get<T>(before: VecPigeonhole<T>, after: VecPigeonhole<T>, v: T, id: usize)
    requires
        before.wf(),
        VecPigeonhole::took_slot(before, after, Some(v), id),
    ensures
        after.lookup(id as int) == Some(v),
{
    before.lemma_free_ids_in_range();
}

/// Once `remove(id)` has succeeded, `id` holds nothing, and removing it
/// again fails.
pub proof fn lemma_remove_then_absent<T>(
    before: VecPigeonhole<T>,
    after: VecPigeonhole<T>,
    id: usize,
    v: T,
)
    requires
        before.wf(),
        VecPigeonhole::removed(before, after, id, Ok(v)),
    ensures
        after.lookup(id as int) is None,
        forall|again: VecPigeonhole<T>, r: Result<T, ()>|
            #[trigger] VecPigeonhole::removed(after, again, id, r) ==> r is Err,
{
}

/// An insertion right after a removal takes the id that was just removed.
pub proof fn lemma_reuse_after_remove<T>(
    a: VecPigeonhole<T>,
    b: VecPigeonhole<T>,
    id: usize,
    v: T,
    c: VecPigeonhole<T>,
    w: T,
    new_id: usize,
)
    requires
        a.wf(),
        VecPigeonhole::removed(a, b, id, Ok(v)),
        VecPigeonhole::took_slot(b, c, Some(w), new_id),
    ensures
        new_id == id,
{
}

/// Insertion leaves every value already in the arena where it was, also
/// when the arena had to grow.
pub proof fn lemma_insert_keeps_values<T>(
    before: VecPigeonhole<T>,
    after: VecPigeonhole<T>,
    v: T,
    id: usize,
    other: int,
)
    requires
        before.wf(),
        VecPigeonhole::took_slot(before, after, Some(v), id),
        before.lookup(other) is Some,
    ensures
        after.lookup(other) == before.lookup(other),
{
    before.lemma_free_ids_in_range();
    if other == id as int {
        before.lemma_free_slots_vacant();
    }
}

/// A reservation given back without a value leaves its id at the head of
/// the free list, so the next insertion takes it; where no growth was
/// needed, the arena is as it was before the reservation.
pub proof fn lemma_abort_then_insert<T>(
    a: VecPigeonhole<T>,
    b: VecPigeonhole<T>,
    id: usize,
    c: VecPigeonhole<T>,
    d: VecPigeonhole<T>,
    w: T,
    new_id: usize,
)
    requires
        a.wf(),
        VecPigeonhole::took_slot(a, b, None, id),
        c@ == b@,
        c.free_ids() == seq![id] + b.free_ids(),
        VecPigeonhole::took_slot(c, d, Some(w), new_id),
    ensures
        new_id == id,
        a.free_ids().len() > 0 ==> c@ == a@ && c.free_ids() == a.free_ids(),
{
    if a.free_ids().len() > 0 {
        a.lemma_free_ids_in_range();
        a.lemma_free_slots_vacant();
        assert(c@ =~= a@);
        assert(c.free_ids() =~= a.free_ids());
    }
}

/// A value stored through a reservation is found under the reserved id.
pub proof fn lemma_reserve_then_set<T>(
    a: VecPigeonhole<T>,
    b: VecPigeonhole<T>,
    id: usize,
    c: VecPigeonhole<T>,
    v: T,
)
    requires
        a.wf(),
        VecPigeonhole::took_slot(a, b, None, id),
        c@ == b@.update(id as int, Some(v)),
    ensures
        c.lookup(id as int) == Some(v),
{
    a.lemma_free_ids_in_range();
}

} // verus!
