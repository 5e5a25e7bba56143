//! Laws that relate the operations of the library to each other.
//!
//! Each law speaks of states through the relations by which the contracts of
//! the operations are written, so that it holds of every run of them.
use vstd::prelude::*;
use crate::conversion::{converted, reads, Represented};
use crate::err::ExtractError;
use crate::heap::Heap;
use crate::list::{
    insert_item_spec, insert_refusal, models_of, new_spec, next_spec, set_item_spec,
};
use crate::list_spec::{
    confined_list, decode_item, decode_items, decode_list, lemma_first_failure,
};
use crate::ptr::Ptr;
use crate::scope::Scope;

verus! {

/// Reading back what a conversion built gives the value that was converted:
/// for a sequence, the same length and the same value in every slot.
pub proof fn lemma_round_trip<T: Represented>(
    value: T,
    before: Scope,
    after: Scope,
    p: Ptr,
    r: Result<T, ExtractError>,
)
    requires
        converted::<T>(before, after, p, value.model()),
        reads::<T>(after.heap, p, r),
    ensures
        r is Ok,
        r->Ok_0.model() == value.model(),
{
}

/// One more reference to an object changes nothing of what any object
/// stands for.
pub proof fn lemma_retain_keeps<T: Represented>(heap: Heap, p: Ptr, q: Ptr, base: int)
    requires
        heap.has(p),
        T::confined(heap, q, base),
    ensures
        T::confined(heap.retain(p), q, base),
        T::decode(heap.retain(p), q) == T::decode(heap, q),
{
    let after = heap.retain(p);
    assert forall|k: int| 0 <= k && base <= k < heap.slots.len() implies (
    #[trigger] after.slots[k]).content == heap.slots[k].content by {}
    T::lemma_frame(heap, after, q, base);
}

/// A new sequence is a sequence of as many slots as the host sequence has
/// elements, and the element in each slot is an object that stands for the
/// host element of the same index.
pub proof fn lemma_new_items<T: Represented>(
    before: Scope,
    after: Scope,
    list: Ptr,
    elements: Seq<T>,
)
    requires
        new_spec(before, after, list, elements),
    ensures
        after.heap.is_list(list),
        after.heap.items(list).len() == elements.len(),
        forall|i: int|
            0 <= i < elements.len() ==> {
                let item = #[trigger] after.heap.items(list)[i];
                &&& after.heap.has(item)
                &&& T::confined(after.heap, item, before.heap.slots.len() as int)
                &&& T::decode(after.heap, item) == Ok::<T::Model, ExtractError>(
                    elements[i].model(),
                )
            },
{
    let items = after.heap.items(list);
    let heap = after.heap;
    let decoded = Seq::new(items.len(), |j: int| decode_item::<T>(heap, items[j])->Ok_0);
    lemma_first_failure::<T>(heap, items, 0);
    assert(<[T] as Represented>::decode(heap, list) == Ok::<Seq<T::Model>, ExtractError>(
        models_of(elements),
    ));
    assert(decode_list::<T>(heap, list) == Ok::<Seq<T::Model>, ExtractError>(models_of(elements)));
    assert(heap.is_list(list));
    assert(decode_items::<T>(heap, items) == Ok::<Seq<T::Model>, ExtractError>(decoded));
    assert(decoded == models_of(elements));
    assert(decoded.len() == items.len());
    assert(confined_list::<T>(heap, list, before.heap.slots.len() as int));
    assert forall|i: int| 0 <= i < elements.len() implies {
        let item = #[trigger] after.heap.items(list)[i];
        &&& after.heap.has(item)
        &&& T::confined(after.heap, item, before.heap.slots.len() as int)
        &&& T::decode(after.heap, item) == Ok::<T::Model, ExtractError>(elements[i].model())
    } by {
        let item = after.heap.items(list)[i];
        assert(T::confined(heap, heap.items(list)[i], before.heap.slots.len() as int));
        T::lemma_confined_has(heap, item, before.heap.slots.len() as int);
        assert(decode_item::<T>(heap, items[i]) is Ok);
        assert(decoded[i] == models_of(elements)[i]);
        assert(models_of(elements)[i] == elements[i].model());
    }
}

/// The length of a new sequence is the length of the host sequence that it
/// was built from.
pub proof fn lemma_new_len<T: Represented>(
    before: Scope,
    after: Scope,
    list: Ptr,
    elements: Seq<T>,
)
    requires
        new_spec(before, after, list, elements),
    ensures
        after.heap.is_list(list),
        after.heap.items(list).len() == elements.len(),
{
    lemma_new_items(before, after, list, elements);
}

/// The element that a new sequence gives for slot `i` reads back as the host
/// element of index `i`.
pub proof fn lemma_new_get_item<T: Represented>(
    before: Scope,
    made: Scope,
    list: Ptr,
    elements: Seq<T>,
    i: int,
    later: Scope,
    r: Result<T, ExtractError>,
)
    requires
        new_spec(before, made, list, elements),
        0 <= i < elements.len(),
        later == made.retain(made.heap.items(list)[i]).track(made.heap.items(list)[i]),
        reads::<T>(later.heap, made.heap.items(list)[i], r),
    ensures
        r is Ok,
        r->Ok_0.model() == elements[i].model(),
{
    lemma_new_items(before, made, list, elements);
    let item = made.heap.items(list)[i];
    lemma_retain_keeps::<T>(made.heap, item, item, before.heap.slots.len() as int);
}

/// After an element was set in a slot of a sequence, the sequence has the
/// length it had, the slot holds an object that stands for the new
/// element, and every other slot holds the object it held.
pub proof fn lemma_set_item_get_item<I: Represented>(
    before: Scope,
    after: Scope,
    list: Ptr,
    index: int,
    model: I::Model,
)
    requires
        before.wf(),
        before.heap.is_list(list),
        0 <= index < before.heap.items(list).len(),
        set_item_spec::<I>(before, after, list, index, model),
    ensures
        after.heap.is_list(list),
        after.heap.items(list).len() == before.heap.items(list).len(),
        after.heap.has(after.heap.items(list)[index]),
        I::decode(after.heap, after.heap.items(list)[index]) == Ok::<I::Model, ExtractError>(
            model,
        ),
        forall|j: int|
            0 <= j < before.heap.items(list).len() && j != index ==> after.heap.items(list)[j]
                == before.heap.items(list)[j],
{
    let (mid, p) = choose|mid: Scope, p: Ptr|
        {
            &&& #[trigger] converted::<I>(before, mid, p, model)
            &&& after == mid.with_heap(
                if 0 <= index < mid.heap.items(list).len() {
                    mid.heap.set_item(list, index, p)
                } else {
                    mid.heap.set_item(list, index, p).settle()
                },
            )
        };
    let base = before.heap.slots.len() as int;
    assert(mid.heap.slots[list.index()] == before.heap.slots[list.index()]);
    let old_item = mid.heap.items(list)[index];
    before.heap.lemma_item_live(list, index);
    I::lemma_confined_has(mid.heap, p, base);
    assert(mid.heap.agrees_from(after.heap, base)) by {
        assert forall|k: int| 0 <= k && base <= k < mid.heap.slots.len() implies (
        #[trigger] after.heap.slots[k]).content == mid.heap.slots[k].content by {
            assert(k != list.index());
        }
    }
    I::lemma_frame(mid.heap, after.heap, p, base);
}

/// After an element was inserted before a slot of a sequence, the sequence
/// is one longer, the slot holds an object that stands for the new element,
/// the slots before it hold what they held, and what was in the slot or
/// after it is one slot further on, in the order it had.
pub proof fn lemma_insert_item<I: Represented>(
    before: Scope,
    after: Scope,
    list: Ptr,
    index: int,
    model: I::Model,
)
    requires
        before.wf(),
        before.heap.is_list(list),
        insert_refusal(before.heap.items(list).len() as int, index) is None,
        insert_item_spec::<I>(before, after, list, index, model),
    ensures
        after.heap.is_list(list),
        after.heap.items(list).len() == before.heap.items(list).len() + 1,
        after.heap.has(after.heap.items(list)[index]),
        I::decode(after.heap, after.heap.items(list)[index]) == Ok::<I::Model, ExtractError>(
            model,
        ),
        forall|j: int| 0 <= j < index ==> after.heap.items(list)[j] == before.heap.items(list)[j],
        forall|j: int|
            index <= j < before.heap.items(list).len() ==> after.heap.items(list)[j + 1]
                == before.heap.items(list)[j],
{
    let (mid, p) = choose|mid: Scope, p: Ptr|
        {
            &&& #[trigger] converted::<I>(before, mid, p, model)
            &&& after == mid.with_heap(
                if mid.heap.insert_error(list, index, p) is None {
                    mid.heap.insert_item(list, index, p)
                } else {
                    mid.heap.insert_item(list, index, p).settle()
                },
            )
        };
    let base = before.heap.slots.len() as int;
    assert(mid.heap.slots[list.index()] == before.heap.slots[list.index()]);
    I::lemma_confined_has(mid.heap, p, base);
    assert(mid.heap.insert_error(list, index, p) is None);
    assert(mid.heap.agrees_from(after.heap, base)) by {
        assert forall|k: int| 0 <= k && base <= k < mid.heap.slots.len() implies (
        #[trigger] after.heap.slots[k]).content == mid.heap.slots[k].content by {
            assert(k != list.index());
        }
    }
    I::lemma_frame(mid.heap, after.heap, p, base);
}

/// The state after `steps` steps of a walk over the sequence at `list` that
/// began at the first slot.
pub open spec fn walked(start: Scope, list: Ptr, steps: nat) -> Scope
    decreases steps,
{
    if steps == 0 {
        start
    } else {
        next_spec(walked(start, list, (steps - 1) as nat), list, steps - 1).1
    }
}

/// A walk changes neither the length nor the elements of the sequence, and
/// nothing of what an object stands for.
pub proof fn lemma_walked_keeps(start: Scope, list: Ptr, steps: nat)
    requires
        start.heap.is_list(list),
        forall|i: int|
            0 <= i < start.heap.items(list).len() ==> start.heap.has(
                #[trigger] start.heap.items(list)[i],
            ),
    ensures
        walked(start, list, steps).heap.is_list(list),
        walked(start, list, steps).heap.items(list) == start.heap.items(list),
        start.heap.agrees_from(walked(start, list, steps).heap, 0),
    decreases steps,
{
    if steps > 0 {
        lemma_walked_keeps(start, list, (steps - 1) as nat);
        let prev = walked(start, list, (steps - 1) as nat);
        if steps - 1 < prev.heap.items(list).len() {
            let item = prev.heap.items(list)[steps - 1];
            assert(start.heap.has(start.heap.items(list)[steps - 1]));
            let now = walked(start, list, steps);
            assert(now.heap == prev.heap.retain(item));
            assert forall|k: int| 0 <= k < start.heap.slots.len() implies (
            #[trigger] now.heap.slots[k]).content == start.heap.slots[k].content by {
                assert(prev.heap.slots[k].content == start.heap.slots[k].content);
            }
        }
    }
}

/// A walk over a new sequence gives, step by step, objects that read back as
/// the elements of the host sequence, in their order, and after as many
/// steps as the host sequence has elements it gives nothing more.
pub proof fn lemma_iter_new<T: Represented>(
    before: Scope,
    made: Scope,
    list: Ptr,
    elements: Seq<T>,
    steps: nat,
)
    requires
        new_spec(before, made, list, elements),
        steps <= elements.len(),
    ensures
        steps < elements.len() ==> {
            let step = next_spec(walked(made, list, steps), list, steps as int);
            &&& step.0 == Some(made.heap.items(list)[steps as int])
            &&& T::decode(step.1.heap, made.heap.items(list)[steps as int]) == Ok::<
                T::Model,
                ExtractError,
            >(elements[steps as int].model())
        },
        steps == elements.len() ==> next_spec(walked(made, list, steps), list, steps as int).0
            is None,
{
    lemma_new_items(before, made, list, elements);
    lemma_walked_keeps(made, list, steps);
    if steps < elements.len() {
        lemma_walked_keeps(made, list, steps + 1);
        let item = made.heap.items(list)[steps as int];
        let after = walked(made, list, steps + 1);
        T::lemma_confined_lower(made.heap, item, before.heap.slots.len() as int, 0);
        T::lemma_frame(made.heap, after.heap, item, 0);
    }
}

} // verus!
