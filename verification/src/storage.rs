//! The slots of a storage record, as the rewritten function uses them.
//!
//! A rewritten lazy declaration tests its slot, fills it where it is empty,
//! and binds its pattern to the content. `OnceSlot` is that slot, and the
//! functions below say what a sequence of calls on one record does to it.

use vstd::prelude::*;

verus! {

/// A slot that starts empty and is filled the first time control reaches its
/// declaration.
pub struct OnceSlot<T> {
    pub value: Option<T>,
}

impl<T> Default for OnceSlot<T> {
    /// An empty slot.
    fn default() -> (slot: OnceSlot<T>)
        ensures
            slot.value is None,
    {
        OnceSlot { value: None }
    }
}

impl<T> OnceSlot<T> {
    /// An empty slot.
    pub fn new() -> (slot: OnceSlot<T>)
        ensures
            slot.value is None,
    {
        OnceSlot { value: None }
    }

    /// Tells whether control has reached the declaration before.
    pub fn is_populated(&self) -> (result: bool)
        ensures
            result == (self.value is Some),
    {
        self.value.is_some()
    }

    /// The content of the slot, if it has any.
    pub fn get(&self) -> (value: Option<&T>)
        ensures
            match value {
                Some(value) => self.value == Some(*value),
                None => self.value is None,
            },
    {
        self.value.as_ref()
    }

    /// The content of the slot, which is filled first where it is empty. The
    /// initializer is called only then; what the caller writes through the
    /// result stays in the slot.
    pub fn get_or_init<F: FnOnce() -> T>(&mut self, init: F) -> (value: &mut T)
        requires
            old(self).value is None ==> init.requires(()),
        ensures
            *value == reached(old(self).value, *value),
            old(self).value is None ==> init.ensures((), *value),
            final(self).value == Some(*final(value)),
    {
        if self.value.is_none() {
            self.value = Some(init());
        }
        match &mut self.value {
            Some(value) => value,
            None => vstd::pervasive::unreached(),
        }
    }
}

impl<T, R: Default> OnceSlot<(T, R)> {
    /// One link of a block's chain: the value of the block's next lazy
    /// declaration, and the rest of the chain behind it. An empty link is
    /// filled with the initializer's value and an empty rest.
    pub fn step<F: FnOnce() -> T>(&mut self, init: F) -> ((value, rest): (&mut T, &mut R))
        requires
            old(self).value is None ==> init.requires(()),
        ensures
            old(self).value matches Some((held, kept)) ==> *value == held && *rest == kept,
            old(self).value is None ==> init.ensures((), *value) && call_ensures(
                R::default,
                (),
                *rest,
            ),
            final(self).value == Some((*final(value), *final(rest))),
    {
        if self.value.is_none() {
            self.value = Some((init(), R::default()));
        }
        match &mut self.value {
            Some(link) => (&mut link.0, &mut link.1),
            None => vstd::pervasive::unreached(),
        }
    }
}

/// The value that a lazy declaration binds: what its slot holds, or else
/// what the initializer gives.
pub open spec fn reached<T>(held: Option<T>, fresh: T) -> T {
    match held {
        Some(value) => value,
        None => fresh,
    }
}

/// A function applied a number of times.
pub open spec fn iterate<T>(body: spec_fn(T) -> T, times: nat, value: T) -> T
    decreases times,
{
    if times == 0 {
        value
    } else {
        body(iterate(body, (times - 1) as nat, value))
    }
}

/// What a slot holds after a number of calls on one record. Each call
/// reaches the declaration and then does its work on the value bound;
/// `fresh[k]` is what the initializer would give in call `k`.
pub open spec fn after_calls<T>(held: Option<T>, fresh: Seq<T>, body: spec_fn(T) -> T) -> Option<T>
    decreases fresh.len(),
{
    if fresh.len() == 0 {
        held
    } else {
        Some(body(reached(after_calls(held, fresh.drop_last(), body), fresh.last())))
    }
}

/// In how many of the calls the initializer runs.
pub open spec fn evaluations<T>(held: Option<T>, fresh: Seq<T>, body: spec_fn(T) -> T) -> nat
    decreases fresh.len(),
{
    if fresh.len() == 0 {
        0
    } else if after_calls(held, fresh.drop_last(), body) is None {
        evaluations(held, fresh.drop_last(), body) + 1
    } else {
        evaluations(held, fresh.drop_last(), body)
    }
}

/// Across any number of calls on a record that starts empty, the
/// initializer of a lazy declaration runs in the first call and in no other.
/// Every later call binds what the call before it left in the slot, so the
/// slot ends with the first call's value as the calls changed it in turn.
pub proof fn lemma_initialized_once<T>(fresh: Seq<T>, body: spec_fn(T) -> T)
    requires
        fresh.len() > 0,
    ensures
        evaluations(None, fresh, body) == 1,
        after_calls(None, fresh, body) == Some(iterate(body, fresh.len(), fresh[0])),
        forall|k: int|
            0 < k < fresh.len() ==> Some(
                reached(#[trigger] after_calls(None, fresh.take(k), body), fresh[k]),
            ) == after_calls(None, fresh.take(k), body),
    decreases fresh.len(),
{
    let before = fresh.drop_last();
    if before.len() == 0 {
        assert(after_calls(None::<T>, before, body) == None::<T>);
        assert(evaluations(None::<T>, before, body) == 0);
        assert(iterate(body, 0, fresh[0]) == fresh[0]);
        assert(iterate(body, 1, fresh[0]) == body(iterate(body, 0, fresh[0])));
    } else {
        lemma_initialized_once(before, body);
        assert(before[0] == fresh[0]);
        assert(iterate(body, fresh.len(), fresh[0]) == body(
            iterate(body, before.len(), fresh[0]),
        ));
    }
    assert forall|k: int| 0 < k < fresh.len() implies Some(
        reached(#[trigger] after_calls(None, fresh.take(k), body), fresh[k]),
    ) == after_calls(None, fresh.take(k), body) by {
        lemma_initialized_once(fresh.take(k), body);
    }
}

/// A slot that holds a value is never initialized again: no call runs the
/// initializer, and each binds what the slot holds.
pub proof fn lemma_populated_stays<T>(value: T, fresh: Seq<T>, body: spec_fn(T) -> T)
    ensures
        evaluations(Some(value), fresh, body) == 0,
        after_calls(Some(value), fresh, body) == Some(iterate(body, fresh.len(), value)),
    decreases fresh.len(),
{
    if fresh.len() > 0 {
        lemma_populated_stays(value, fresh.drop_last(), body);
        assert(iterate(body, fresh.len(), value) == body(
            iterate(body, fresh.drop_last().len(), value),
        ));
    }
}

/// A record with two lazy declarations: one that every call reaches, and one
/// inside a branch.
pub ghost struct Branching<A, B> {
    pub outside: Option<A>,
    pub inside: Option<B>,
}

/// The record after one call, which takes the branch or not.
pub open spec fn branching_call<A, B>(
    record: Branching<A, B>,
    taken: bool,
    a: A,
    b: B,
) -> Branching<A, B> {
    Branching {
        outside: Some(reached(record.outside, a)),
        inside: if taken {
            Some(reached(record.inside, b))
        } else {
            record.inside
        },
    }
}

/// The record after a number of calls that do not take the branch.
pub open spec fn branching_skips<A, B>(
    record: Branching<A, B>,
    a: Seq<A>,
    b: Seq<B>,
) -> Branching<A, B>
    decreases a.len(),
{
    if a.len() == 0 || b.len() == 0 {
        record
    } else {
        branching_call(
            branching_skips(record, a.drop_last(), b.drop_last()),
            false,
            a.last(),
            b.last(),
        )
    }
}

/// A lazy declaration inside a branch is initialized by the first call that
/// takes the branch, and not before; a declaration outside the branch is
/// initialized by the first call, whether that call takes the branch or not.
pub proof fn lemma_branch_waits<A, B>(a: Seq<A>, b: Seq<B>, last_a: A, last_b: B)
    requires
        a.len() == b.len(),
    ensures
        ({
            let empty = Branching::<A, B> { outside: None, inside: None };
            let skipped = branching_skips(empty, a, b);
            let taken = branching_call(skipped, true, last_a, last_b);
            &&& skipped.inside is None
            &&& taken.inside == Some(last_b)
            &&& a.len() > 0 ==> skipped.outside == Some(a[0]) && taken.outside == Some(a[0])
            &&& a.len() == 0 ==> skipped.outside is None && taken.outside == Some(last_a)
        }),
    decreases a.len(),
{
    let empty = Branching::<A, B> { outside: None, inside: None };
    if a.len() > 1 {
        lemma_branch_waits(a.drop_last(), b.drop_last(), last_a, last_b);
        assert(a.drop_last()[0] == a[0]);
    } else if a.len() == 1 {
        assert(branching_skips(empty, a.drop_last(), b.drop_last()) == empty);
    }
}

/// What the slot of an outer function holds after one call, where the slot
/// is the record of an inner function with one lazy declaration, and the
/// outer function calls the inner one with it.
pub open spec fn nested_call<T>(outer: Option<Option<T>>, fresh: T) -> Option<Option<T>> {
    Some(Some(reached(reached(outer, None), fresh)))
}

/// The slot after a number of calls of the outer function.
pub open spec fn nested_calls<T>(outer: Option<Option<T>>, fresh: Seq<T>) -> Option<Option<T>>
    decreases fresh.len(),
{
    if fresh.len() == 0 {
        outer
    } else {
        nested_call(nested_calls(outer, fresh.drop_last()), fresh.last())
    }
}

/// The record of an inner function, held in a slot of the outer one, is
/// constructed by the first call of the outer function and reused by every
/// later one: what the inner function initialized in the first call is what
/// it finds in all the others.
pub proof fn lemma_nested_record_persists<T>(fresh: Seq<T>)
    requires
        fresh.len() > 0,
    ensures
        nested_calls(None, fresh) == Some(Some(fresh[0])),
    decreases fresh.len(),
{
    if fresh.len() > 1 {
        lemma_nested_record_persists(fresh.drop_last());
        assert(fresh.drop_last()[0] == fresh[0]);
    } else {
        assert(nested_calls(None::<Option<T>>, fresh.drop_last()) == None::<Option<T>>);
    }
}

/// One call in a sequence of calls on two records: the record it is made
/// on, and what the initializer would give in it.
pub ghost struct Call<T> {
    pub first: bool,
    pub fresh: T,
}

/// What the initializers would give in the calls that are made on the one
/// record or on the other, in their order.
pub open spec fn calls_on<T>(calls: Seq<Call<T>>, first: bool) -> Seq<T>
    decreases calls.len(),
{
    if calls.len() == 0 {
        Seq::empty()
    } else if calls.last().first == first {
        calls_on(calls.drop_last(), first).push(calls.last().fresh)
    } else {
        calls_on(calls.drop_last(), first)
    }
}

/// What the slots of two records hold after a sequence of calls of one
/// function, each made on one of the two.
pub open spec fn after_calls_on_two<T>(
    first: Option<T>,
    second: Option<T>,
    calls: Seq<Call<T>>,
    body: spec_fn(T) -> T,
) -> (Option<T>, Option<T>)
    decreases calls.len(),
{
    if calls.len() == 0 {
        (first, second)
    } else {
        let (one, other) = after_calls_on_two(first, second, calls.drop_last(), body);
        if calls.last().first {
            (Some(body(reached(one, calls.last().fresh))), other)
        } else {
            (one, Some(body(reached(other, calls.last().fresh))))
        }
    }
}

/// Two records do not share state: however the calls on them alternate,
/// each record holds what the calls made on it alone would have left in it.
/// A call on one record leaves the other as it was.
pub proof fn lemma_records_are_apart<T>(
    first: Option<T>,
    second: Option<T>,
    calls: Seq<Call<T>>,
    body: spec_fn(T) -> T,
)
    ensures
        after_calls_on_two(first, second, calls, body) == (
            after_calls(first, calls_on(calls, true), body),
            after_calls(second, calls_on(calls, false), body),
        ),
    decreases calls.len(),
{
    if calls.len() > 0 {
        lemma_records_are_apart(first, second, calls.drop_last(), body);
        let earlier = calls.drop_last();
        if calls.last().first {
            assert(calls_on(calls, true).drop_last() =~= calls_on(earlier, true));
            assert(calls_on(calls, false) == calls_on(earlier, false));
        } else {
            assert(calls_on(calls, false).drop_last() =~= calls_on(earlier, false));
            assert(calls_on(calls, true) == calls_on(earlier, true));
        }
    }
}

} // verus!
