use vstd::prelude::*;

verus! {


/// One position of the arena: vacant, with the link to the next vacant
/// position, or holding a live value.
pub enum Slot<T> {
    Free(Option<usize>),
    Used(T),
}

/// What a slot holds, seen from outside: the value, or nothing.
pub open spec fn slot_value<T>(s: Slot<T>) -> Option<T> {
    match s {
        Slot::Free(_) => None,
        Slot::Used(v) => Some(v),
    }
}

/// The values of `s` in order, skipping the vacant positions.
pub open spec fn live_values<T>(s: Seq<Option<T>>) -> Seq<T>
    decreases s.len(),
{
    if s.len() == 0 {
        Seq::empty()
    } else {
        match s[0] {
            Some(v) => seq![v] + live_values(s.drop_first()),
            None => live_values(s.drop_first()),
        }
    }
}

/// Setting position `i` to `o` changes the number of live values by what
/// `o` adds and what the old entry held.
pub(crate) proof fn lemma_live_update<T>(s: Seq<Option<T>>, i: int, o: Option<T>)
    requires
        0 <= i < s.len(),
    ensures
        live_values(s.update(i, o)).len() + (if s[i] is Some { 1int } else { 0 })
            == live_values(s).len() + (if o is Some { 1int } else { 0 }),
    decreases s.len(),
{
    if i == 0 {
        assert(s.update(i, o).drop_first() =~= s.drop_first());
    } else {
        assert(s.update(i, o).drop_first() =~= s.drop_first().update(i - 1, o));
        lemma_live_update(s.drop_first(), i - 1, o);
    }
}

/// The live values of a concatenation are those of each part in turn.
pub(crate) proof fn lemma_live_append<T>(s: Seq<Option<T>>, t: Seq<Option<T>>)
    ensures
        live_values(s + t) == live_values(s) + live_values(t),
    decreases s.len(),
{
    if s.len() == 0 {
        assert(s + t =~= t);
        assert(live_values(s) + live_values(t) =~= live_values(t));
    } else {
        assert((s + t).drop_first() =~= s.drop_first() + t);
        lemma_live_append(s.drop_first(), t);
        match s[0] {
            Some(v) => {
                assert(seq![v] + (live_values(s.drop_first()) + live_values(t))
                    =~= (seq![v] + live_values(s.drop_first())) + live_values(t));
            },
            None => {},
        }
    }
}

/// A run of vacant positions holds no value.
pub(crate) proof fn lemma_live_vacant<T>(n: nat)
    ensures
        live_values(Seq::new(n, |k: int| None::<T>)).len() == 0,
    decreases n,
{
    if n > 0 {
        assert(Seq::new(n, |k: int| None::<T>).drop_first() =~= Seq::new((n - 1) as nat, |k: int| None::<T>));
        lemma_live_vacant::<T>((n - 1) as nat);
    }
}

/// What the slots from `pos` on hold, as seen from outside.
pub open spec fn values_from<T>(slots: Seq<Slot<T>>, pos: int) -> Seq<T> {
    live_values(slots.subrange(pos, slots.len() as int).map_values(|s: Slot<T>| slot_value(s)))
}

/// Stepping past position `pos` drops its value, if any, from the front.
pub(crate) proof fn lemma_values_step<T>(slots: Seq<Slot<T>>, pos: int)
    requires
        0 <= pos < slots.len(),
    ensures
        values_from(slots, pos) == match slots[pos] {
            Slot::Used(v) => seq![v] + values_from(slots, pos + 1),
            Slot::Free(_) => values_from(slots, pos + 1),
        },
{
    let f = |s: Slot<T>| slot_value(s);
    let a = slots.subrange(pos, slots.len() as int).map_values(f);
    let b = slots.subrange(pos + 1, slots.len() as int).map_values(f);
    assert(a.drop_first() =~= b);
    assert(a[0] == slot_value(slots[pos]));
}

/// The vacant slot at position `k` of the chain that growth appends to an
/// arena of `len` slots: each links to the next, the last one ends the list.
pub open spec fn chain_slot<T>(len: nat, k: int) -> Slot<T> {
    Slot::Free(if k < len { Some((len + k + 1) as usize) } else { None })
}

} // verus!
