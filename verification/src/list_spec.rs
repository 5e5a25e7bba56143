//! What a sequence object means as a host sequence, and the steps by which
//! one is built.
use vstd::prelude::*;
use crate::conversion::Represented;
use crate::err::ExtractError;
use crate::heap::{Content, Heap};
use crate::ptr::Ptr;
use crate::runtime::nulls;
use crate::scope::Scope;

verus! {

/// The host value that an element stands for. An empty slot stands for none.
pub open spec fn decode_item<T: Represented>(heap: Heap, p: Ptr) -> Result<
    T::Model,
    ExtractError,
> {
    if p is Null {
        Err(ExtractError::KindMismatch)
    } else {
        T::decode(heap, p)
    }
}

/// The first slot from `from` on whose element stands for no host value, or
/// the length of `items` if there is none.
pub open spec fn first_failure<T: Represented>(heap: Heap, items: Seq<Ptr>, from: int) -> int
    decreases items.len() - from,
{
    if from < 0 || from >= items.len() {
        items.len() as int
    } else if decode_item::<T>(heap, items[from]) is Err {
        from
    } else {
        first_failure::<T>(heap, items, from + 1)
    }
}

/// The host sequence that `items` stand for, element by element, or the
/// reason why the first element that stands for none does so.
pub open spec fn decode_items<T: Represented>(heap: Heap, items: Seq<Ptr>) -> Result<
    Seq<T::Model>,
    ExtractError,
> {
    let bad = first_failure::<T>(heap, items, 0);
    if bad < items.len() {
        Err(decode_item::<T>(heap, items[bad])->Err_0)
    } else {
        Ok(Seq::new(items.len(), |j: int| decode_item::<T>(heap, items[j])->Ok_0))
    }
}

/// The host sequence that the object at `p` stands for.
pub open spec fn decode_list<T: Represented>(heap: Heap, p: Ptr) -> Result<
    Seq<T::Model>,
    ExtractError,
> {
    if heap.is_list(p) {
        decode_items::<T>(heap, heap.items(p))
    } else {
        Err(ExtractError::KindMismatch)
    }
}

/// Whether the object at `p` and all that its elements are confined to lie at
/// slot `base` or above.
pub open spec fn confined_list<T: Represented>(heap: Heap, p: Ptr, base: int) -> bool {
    &&& heap.has(p)
    &&& p.index() >= base
    &&& forall|j: int|
        0 <= j < heap.items(p).len() ==> T::confined(heap, #[trigger] heap.items(p)[j], base)
}

/// The first failure lies at or after where the search began, every element
/// before it stands for a value, and the one at it does not.
pub proof fn lemma_first_failure<T: Represented>(heap: Heap, items: Seq<Ptr>, from: int)
    requires
        0 <= from <= items.len(),
    ensures
        from <= first_failure::<T>(heap, items, from) <= items.len(),
        forall|j: int|
            from <= j < first_failure::<T>(heap, items, from) ==> decode_item::<T>(
                heap,
                #[trigger] items[j],
            ) is Ok,
        first_failure::<T>(heap, items, from) < items.len() ==> decode_item::<T>(
            heap,
            items[first_failure::<T>(heap, items, from)],
        ) is Err,
    decreases items.len() - from,
{
    if from < items.len() && decode_item::<T>(heap, items[from]) is Ok {
        lemma_first_failure::<T>(heap, items, from + 1);
    }
}

/// Where every element stands for a value, the sequence stands for the
/// sequence of these values.
pub proof fn lemma_decode_items_ok<T: Represented>(heap: Heap, items: Seq<Ptr>, models: Seq<T::Model>)
    requires
        models.len() == items.len(),
        forall|j: int|
            0 <= j < items.len() ==> decode_item::<T>(heap, #[trigger] items[j]) == Ok::<
                T::Model,
                ExtractError,
            >(models[j]),
    ensures
        decode_items::<T>(heap, items) == Ok::<Seq<T::Model>, ExtractError>(models),
{
    lemma_first_failure::<T>(heap, items, 0);
    let bad = first_failure::<T>(heap, items, 0);
    if bad < items.len() {
        assert(decode_item::<T>(heap, items[bad]) is Ok);
    }
    assert(Seq::new(items.len(), |j: int| decode_item::<T>(heap, items[j])->Ok_0) =~= models);
}

/// Two heaps in which every element stands for the same give the same
/// first failure.
pub proof fn lemma_first_failure_same<T: Represented>(
    a: Heap,
    b: Heap,
    items: Seq<Ptr>,
    from: int,
)
    requires
        0 <= from <= items.len(),
        forall|j: int|
            0 <= j < items.len() ==> decode_item::<T>(a, #[trigger] items[j]) == decode_item::<T>(
                b,
                items[j],
            ),
    ensures
        first_failure::<T>(a, items, from) == first_failure::<T>(b, items, from),
    decreases items.len() - from,
{
    if from < items.len() {
        assert(decode_item::<T>(a, items[from]) == decode_item::<T>(b, items[from]));
        lemma_first_failure_same::<T>(a, b, items, from + 1);
    }
}

/// What a sequence object stands for depends only on the objects to which
/// it is confined.
pub proof fn lemma_frame_list<T: Represented>(a: Heap, b: Heap, p: Ptr, base: int)
    requires
        confined_list::<T>(a, p, base),
        a.agrees_from(b, base),
    ensures
        confined_list::<T>(b, p, base),
        decode_list::<T>(b, p) == decode_list::<T>(a, p),
{
    assert(b.slots[p.index()].content == a.slots[p.index()].content);
    let items = a.items(p);
    assert forall|j: int| 0 <= j < items.len() implies T::confined(b, #[trigger] items[j], base)
        && decode_item::<T>(a, items[j]) == decode_item::<T>(b, items[j]) by {
        assert(T::confined(a, a.items(p)[j], base));
        T::lemma_frame(a, b, items[j], base);
        T::lemma_confined_has(a, items[j], base);
    }
    if a.is_list(p) {
        lemma_first_failure_same::<T>(a, b, items, 0);
        lemma_first_failure::<T>(a, items, 0);
        assert(Seq::new(items.len(), |j: int| decode_item::<T>(a, items[j])->Ok_0) =~= Seq::new(
            items.len(),
            |j: int| decode_item::<T>(b, items[j])->Ok_0,
        ));
    }
}

/// What is confined above a base is confined above any lower one.
pub proof fn lemma_confined_list_lower<T: Represented>(heap: Heap, p: Ptr, base: int, lower: int)
    requires
        confined_list::<T>(heap, p, base),
        lower <= base,
    ensures
        confined_list::<T>(heap, p, lower),
{
    assert forall|j: int| 0 <= j < heap.items(p).len() implies T::confined(
        heap,
        #[trigger] heap.items(p)[j],
        lower,
    ) by {
        T::lemma_confined_lower(heap, heap.items(p)[j], base, lower);
    }
}

/// Whether `now` is `start` on the way to a new sequence at `list` of `len`
/// slots: the first slots hold new objects that stand for `models`, in
/// order, the others are empty, and nothing that was in `start` has changed.
pub open spec fn filling<T: Represented>(
    start: Scope,
    now: Scope,
    list: Ptr,
    models: Seq<T::Model>,
    len: int,
) -> bool {
    &&& now.wf()
    &&& list == start.heap.next()
    &&& now.arena == start.arena
    &&& now.heap.extends(start.heap)
    &&& forall|q: Ptr| start.heap.has(q) ==> #[trigger] now.heap.held(q) == start.heap.held(q)
    &&& now.heap.is_list(list)
    &&& now.heap.refcnt(list) == 1
    &&& now.heap.held(list) == 0
    &&& now.heap.items(list).len() == len
    &&& models.len() <= len
    &&& forall|j: int|
        0 <= j < models.len() ==> T::confined(
            now.heap,
            #[trigger] now.heap.items(list)[j],
            list.index() + 1,
        ) && T::decode(now.heap, now.heap.items(list)[j]) == Ok::<T::Model, ExtractError>(
            models[j],
        )
    &&& forall|j: int| models.len() <= j < len ==> #[trigger] now.heap.items(list)[j] is Null
}

/// A sequence of empty slots is the start of the way.
pub proof fn lemma_fill_start<T: Represented>(start: Scope, len: int)
    requires
        start.wf(),
        0 <= len <= isize::MAX,
        start.heap.slots.len() < usize::MAX,
    ensures
        filling::<T>(
            start,
            start.with_heap(start.heap.allocate(Content::List(nulls(len)))),
            start.heap.next(),
            Seq::empty(),
            len,
        ),
{
    start.lemma_allocate(Content::List(nulls(len)));
}

/// A new object that goes into the first empty slot is one step on the way.
pub proof fn lemma_fill_step<T: Represented>(
    start: Scope,
    before: Scope,
    mid: Scope,
    list: Ptr,
    models: Seq<T::Model>,
    len: int,
    item: Ptr,
    model: T::Model,
)
    requires
        filling::<T>(start, before, list, models, len),
        models.len() < len,
        before.built(mid, item),
        T::confined(mid.heap, item, before.heap.slots.len() as int),
        T::decode(mid.heap, item) == Ok::<T::Model, ExtractError>(model),
    ensures
        mid.heap.is_list(list),
        mid.owns(item),
        0 <= models.len() < mid.heap.items(list).len(),
        filling::<T>(
            start,
            mid.with_heap(mid.heap.set_item(list, models.len() as int, item)),
            list,
            models.push(model),
            len,
        ),
{
    let i = models.len() as int;
    let base = list.index() + 1;
    let after = mid.with_heap(mid.heap.set_item(list, i, item));
    let items = before.heap.items(list);
    before.lemma_built_owns(mid, item);
    assert(mid.heap.slots[list.index()] == before.heap.slots[list.index()]);
    assert(items[i] is Null);
    mid.lemma_set_item(list, i, item);
    mid.heap.lemma_set_item(list, i, item);
    T::lemma_confined_lower(mid.heap, item, before.heap.slots.len() as int, base);
    assert(before.heap.agrees_from(mid.heap, base)) by {
        assert forall|k: int| 0 <= k && base <= k < before.heap.slots.len() implies (
        #[trigger] mid.heap.slots[k]).content == before.heap.slots[k].content by {
            assert(mid.heap.slots[k] == before.heap.slots[k]);
        }
    }
    assert(mid.heap.agrees_from(after.heap, base));
    assert forall|j: int| 0 <= j < models.push(model).len() implies T::confined(
        after.heap,
        #[trigger] after.heap.items(list)[j],
        base,
    ) && T::decode(after.heap, after.heap.items(list)[j]) == Ok::<T::Model, ExtractError>(
        models.push(model)[j],
    ) by {
        if j < i {
            assert(T::confined(before.heap, before.heap.items(list)[j], base));
            T::lemma_frame(before.heap, mid.heap, items[j], base);
            T::lemma_frame(mid.heap, after.heap, items[j], base);
        } else {
            T::lemma_frame(mid.heap, after.heap, item, base);
        }
    }
    assert forall|j: int| models.push(model).len() <= j < len implies #[trigger] after.heap.items(
        list,
    )[j] is Null by {
        assert(before.heap.items(list)[j] is Null);
    }
    assert forall|q: Ptr| start.heap.has(q) implies #[trigger] after.heap.held(q)
        == start.heap.held(q) by {
        assert(before.heap.held(q) == start.heap.held(q));
        assert(mid.heap.held(q) == before.heap.held(q));
    }
    assert(after.heap.held(list) == mid.heap.held(list));
    assert(mid.heap.held(list) == before.heap.held(list));
    assert(after.heap.extends(start.heap)) by {
        assert forall|k: int| 0 <= k < start.heap.slots.len() implies #[trigger] after.heap.slots[k]
            == start.heap.slots[k] by {
            assert(before.heap.slots[k] == start.heap.slots[k]);
            assert(mid.heap.slots[k] == before.heap.slots[k]);
        }
    }
}

/// A sequence without empty slots is the end of the way: a new object that
/// stands for the host sequence.
pub proof fn lemma_fill_done<T: Represented>(
    start: Scope,
    now: Scope,
    list: Ptr,
    models: Seq<T::Model>,
)
    requires
        start.wf(),
        filling::<T>(start, now, list, models, models.len() as int),
    ensures
        start.built(now, list),
        confined_list::<T>(now.heap, list, start.heap.slots.len() as int),
        decode_list::<T>(now.heap, list) == Ok::<Seq<T::Model>, ExtractError>(models),
        forall|j: int|
            0 <= j < models.len() ==> T::confined(
                now.heap,
                #[trigger] now.heap.items(list)[j],
                list.index() + 1,
            ) && T::decode(now.heap, now.heap.items(list)[j]) == Ok::<T::Model, ExtractError>(
                models[j],
            ),
{
    let items = now.heap.items(list);
    let base = list.index() + 1;
    assert forall|j: int| 0 <= j < items.len() implies T::confined(
        now.heap,
        #[trigger] now.heap.items(list)[j],
        start.heap.slots.len() as int,
    ) && decode_item::<T>(now.heap, items[j]) == Ok::<T::Model, ExtractError>(models[j]) by {
        assert(T::confined(now.heap, now.heap.items(list)[j], base));
        T::lemma_confined_lower(now.heap, items[j], base, start.heap.slots.len() as int);
        T::lemma_confined_has(now.heap, items[j], base);
    }
    lemma_decode_items_ok::<T>(now.heap, items, models);
}

} // verus!
