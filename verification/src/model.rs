//! The list operations as functions on the sequence of a list's values, head
//! first, and the order laws that follow from them.
//!
//! Both list types state what `append`, `prepend` and `pop` do through the
//! functions of this module, so every law below is a law of both lists.

use vstd::prelude::*;

verus! {

/// The values after `append(x)`: `x` joins at the tail end.
pub open spec fn appended<T>(s: Seq<T>, x: T) -> Seq<T> {
    s.push(x)
}

/// The values after `prepend(x)`: `x` joins at the head end.
pub open spec fn prepended<T>(s: Seq<T>, x: T) -> Seq<T> {
    seq![x] + s
}

/// What `pop` returns and the values it leaves: the head value leaves, and
/// nothing changes where there is none.
pub open spec fn popped<T>(s: Seq<T>) -> (Option<T>, Seq<T>) {
    if s.len() == 0 {
        (None, s)
    } else {
        (Some(s[0]), s.drop_first())
    }
}

/// The values after appending each of `items` in turn.
pub open spec fn append_all<T>(s: Seq<T>, items: Seq<T>) -> Seq<T>
    decreases items.len(),
{
    if items.len() == 0 {
        s
    } else {
        append_all(appended(s, items[0]), items.drop_first())
    }
}

/// The values after prepending each of `items` in turn.
pub open spec fn prepend_all<T>(s: Seq<T>, items: Seq<T>) -> Seq<T>
    decreases items.len(),
{
    if items.len() == 0 {
        s
    } else {
        prepend_all(prepended(s, items[0]), items.drop_first())
    }
}

/// The values left after `n` pops.
pub open spec fn pop_n<T>(s: Seq<T>, n: nat) -> Seq<T>
    decreases n,
{
    if n == 0 {
        s
    } else {
        pop_n(popped(s).1, (n - 1) as nat)
    }
}

/// What the pop that follows `k` earlier pops returns.
pub open spec fn nth_pop<T>(s: Seq<T>, k: nat) -> Option<T> {
    popped(pop_n(s, k)).0
}

/// One insertion at either end.
pub enum Insertion<T> {
    Append(T),
    Prepend(T),
}

/// The values after one insertion.
pub open spec fn inserted<T>(s: Seq<T>, op: Insertion<T>) -> Seq<T> {
    match op {
        Insertion::Append(x) => appended(s, x),
        Insertion::Prepend(x) => prepended(s, x),
    }
}

/// The values after each of `ops` in turn.
pub open spec fn insert_all<T>(s: Seq<T>, ops: Seq<Insertion<T>>) -> Seq<T>
    decreases ops.len(),
{
    if ops.len() == 0 {
        s
    } else {
        insert_all(inserted(s, ops[0]), ops.drop_first())
    }
}

/// The values that `ops` append, in the order of `ops`.
pub open spec fn appends_of<T>(ops: Seq<Insertion<T>>) -> Seq<T>
    decreases ops.len(),
{
    if ops.len() == 0 {
        Seq::empty()
    } else {
        match ops.last() {
            Insertion::Append(x) => appends_of(ops.drop_last()).push(x),
            Insertion::Prepend(_) => appends_of(ops.drop_last()),
        }
    }
}

/// The values that `ops` prepend, the latest first.
pub open spec fn prepends_of<T>(ops: Seq<Insertion<T>>) -> Seq<T>
    decreases ops.len(),
{
    if ops.len() == 0 {
        Seq::empty()
    } else {
        match ops.last() {
            Insertion::Append(_) => prepends_of(ops.drop_last()),
            Insertion::Prepend(x) => seq![x] + prepends_of(ops.drop_last()),
        }
    }
}

/// Appending `items` to `s` leaves `s` followed by `items`.
pub proof fn lemma_append_all<T>(s: Seq<T>, items: Seq<T>)
    ensures
        append_all(s, items) == s + items,
    decreases items.len(),
{
    if items.len() > 0 {
        lemma_append_all(appended(s, items[0]), items.drop_first());
    }
}

/// Prepending `items` to `s` leaves `items` reversed, followed by `s`.
pub proof fn lemma_prepend_all<T>(s: Seq<T>, items: Seq<T>)
    ensures
        prepend_all(s, items) == items.reverse() + s,
    decreases items.len(),
{
    if items.len() > 0 {
        lemma_prepend_all(prepended(s, items[0]), items.drop_first());
    }
}

/// `n` pops take the first `n` values away, or all of them where there are
/// fewer, and the pop after `k` others returns the value that stood at
/// place `k`.
pub proof fn lemma_pop_n<T>(s: Seq<T>, n: nat)
    ensures
        n <= s.len() ==> pop_n(s, n) == s.subrange(n as int, s.len() as int),
        n >= s.len() ==> pop_n(s, n) == Seq::<T>::empty(),
        n < s.len() ==> nth_pop(s, n) == Some(s[n as int]),
        n >= s.len() ==> nth_pop(s, n) == None::<T>,
    decreases n,
{
    if n > 0 {
        lemma_pop_n(popped(s).1, (n - 1) as nat);
    }
}

/// First in, first out: after appending `items` to an empty list the list
/// holds `items.len()` values, that many pops return `items` in the order in
/// which they were appended, and the list is empty afterwards.
pub proof fn lemma_appends_pop_fifo<T>(items: Seq<T>)
    ensures
        append_all(Seq::empty(), items).len() == items.len(),
        forall|k: nat|
            k < items.len() ==> #[trigger] nth_pop(append_all(Seq::empty(), items), k) == Some(
                items[k as int],
            ),
        pop_n(append_all(Seq::empty(), items), items.len()) == Seq::<T>::empty(),
{
    let list = append_all(Seq::empty(), items);
    lemma_append_all(Seq::empty(), items);
    assert forall|k: nat| k < items.len() implies #[trigger] nth_pop(list, k) == Some(
        items[k as int],
    ) by {
        lemma_pop_n(list, k);
    }
    lemma_pop_n(list, items.len());
}

/// Last in, first out: after prepending `items` to an empty list, pops return
/// them in the reverse of the order in which they were prepended, and the
/// list is empty afterwards.
pub proof fn lemma_prepends_pop_lifo<T>(items: Seq<T>)
    ensures
        prepend_all(Seq::empty(), items).len() == items.len(),
        forall|k: nat|
            k < items.len() ==> #[trigger] nth_pop(prepend_all(Seq::empty(), items), k) == Some(
                items[items.len() - 1 - k],
            ),
        pop_n(prepend_all(Seq::empty(), items), items.len()) == Seq::<T>::empty(),
{
    let list = prepend_all(Seq::empty(), items);
    lemma_prepend_all(Seq::empty(), items);
    assert forall|k: nat| k < items.len() implies #[trigger] nth_pop(list, k) == Some(
        items[items.len() - 1 - k],
    ) by {
        lemma_pop_n(list, k);
    }
    lemma_pop_n(list, items.len());
}

/// Pop takes from the head end only: it returns what was prepended last, and
/// an append changes what it returns only on an empty list.
pub proof fn lemma_pop_takes_head<T>(s: Seq<T>, x: T)
    ensures
        popped(prepended(s, x)) == (Some(x), s),
        s.len() > 0 ==> popped(appended(s, x)) == (popped(s).0, appended(popped(s).1, x)),
        s.len() == 0 ==> popped(appended(s, x)) == (Some(x), s),
{
}

/// Appends and prepends in any order leave a double-ended queue: the
/// prepended values, the latest first, then the values that were there, then
/// the appended values, the earliest first.
pub proof fn lemma_insert_all<T>(s: Seq<T>, ops: Seq<Insertion<T>>)
    ensures
        insert_all(s, ops) == prepends_of(ops) + s + appends_of(ops),
    decreases ops.len(),
{
    if ops.len() > 0 {
        lemma_insert_all_last(s, ops);
        lemma_insert_all(s, ops.drop_last());
    }
}

/// Each of `ops` appends one value or prepends one.
pub proof fn lemma_insertions_len<T>(ops: Seq<Insertion<T>>)
    ensures
        prepends_of(ops).len() + appends_of(ops).len() == ops.len(),
    decreases ops.len(),
{
    if ops.len() > 0 {
        lemma_insertions_len(ops.drop_last());
    }
}

/// After appends and prepends in any order on an empty list, the list holds
/// one value for each of them, and pops return the prepended values, the
/// latest first, and then the appended values, the earliest first; as many
/// pops as there were insertions leave the list empty.
pub proof fn lemma_insertions_pop_order<T>(ops: Seq<Insertion<T>>)
    ensures
        insert_all(Seq::empty(), ops) == prepends_of(ops) + appends_of(ops),
        insert_all(Seq::empty(), ops).len() == ops.len(),
        forall|k: nat|
            k < ops.len() ==> #[trigger] nth_pop(insert_all(Seq::empty(), ops), k) == Some(
                (prepends_of(ops) + appends_of(ops))[k as int],
            ),
        pop_n(insert_all(Seq::empty(), ops), ops.len()) == Seq::<T>::empty(),
{
    let list = insert_all(Seq::empty(), ops);
    lemma_insert_all(Seq::empty(), ops);
    lemma_insertions_len(ops);
    assert(list =~= prepends_of(ops) + appends_of(ops));
    assert forall|k: nat| k < ops.len() implies #[trigger] nth_pop(list, k) == Some(
        (prepends_of(ops) + appends_of(ops))[k as int],
    ) by {
        lemma_pop_n(list, k);
    }
    lemma_pop_n(list, ops.len());
}

/// The last of `ops` is the last to act.
proof fn lemma_insert_all_last<T>(s: Seq<T>, ops: Seq<Insertion<T>>)
    requires
        ops.len() > 0,
    ensures
        insert_all(s, ops) == inserted(insert_all(s, ops.drop_last()), ops.last()),
    decreases ops.len(),
{
    let first = inserted(s, ops[0]);
    if ops.len() == 1 {
        assert(insert_all(first, ops.drop_first()) == first);
    } else {
        lemma_insert_all_last(first, ops.drop_first());
        assert(ops.drop_first().drop_last() =~= ops.drop_last().drop_first());
    }
}

} // verus!
