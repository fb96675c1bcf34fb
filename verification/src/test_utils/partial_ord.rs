//! Queue which releases items once all their dependencies were released.
//!
//! Items point at others as their dependencies, forming a directed acyclic graph. The orderer
//! watches incoming items, checks whether their dependencies are met, and yields a linearised
//! sequence of dependency-checked items.
use std::collections::VecDeque;

use vstd::prelude::*;

use crate::group::state::{
    entries_map, has_key, keys_distinct, lemma_entries_map_index, lemma_entries_map_push,
    lemma_entries_map_remove, replace_value,
};
use crate::traits::OperationId;

verus! {

/// Error of the orderer.
///
/// The orderer's operations cannot fail at the moment: no value of this type is ever made, and
/// its private field keeps code outside this crate from making one.
#[derive(Debug)]
pub struct PartialOrdererError {
    unused: (),
}

/// Operations of the dependency-checking queue.
pub struct PartialOrderer<T> {
    marker: core::marker::PhantomData<T>,
}

/// State of the dependency-checking queue.
///
/// - `ready`: all items whose dependencies were met,
/// - `ready_queue`: ready items not yet taken, in the order they became ready,
/// - `pending`: for an item which is not ready yet, the items waiting on it together with their
///   dependencies.
#[derive(Debug)]
pub struct PartialOrdererState<T> {
    pub(crate) ready: Vec<T>,
    pub(crate) ready_queue: VecDeque<T>,
    pub(crate) pending: Vec<(T, Vec<(T, Vec<T>)>)>,
}

/// A waiting item and its dependencies, seen as plain values.
pub open spec fn dependents_view<T>(v: Vec<(T, Vec<T>)>) -> Seq<(T, Seq<T>)> {
    v@.map_values(|e: (T, Vec<T>)| (e.0, e.1@))
}

/// `list` with `d` added at its end, unless `d` occurs in it already.
pub open spec fn with_dependent<T>(list: Seq<(T, Seq<T>)>, d: (T, Seq<T>)) -> Seq<(T, Seq<T>)> {
    if list.contains(d) {
        list
    } else {
        list.push(d)
    }
}

/// Pending items after `key`, with dependencies `deps`, was recorded as waiting on each item of
/// `among` which is not ready.
pub open spec fn record_waiting<T>(
    p: Map<T, Seq<(T, Seq<T>)>>,
    ready: Set<T>,
    key: T,
    deps: Seq<T>,
    among: Seq<T>,
) -> Map<T, Seq<(T, Seq<T>)>> {
    Map::new(
        |k: T| p.contains_key(k) || (among.contains(k) && !ready.contains(k)),
        |k: T|
            if among.contains(k) && !ready.contains(k) {
                with_dependent(
                    if p.contains_key(k) {
                        p[k]
                    } else {
                        Seq::empty()
                    },
                    (key, deps),
                )
            } else {
                p[k]
            },
    )
}

impl<T> PartialOrdererState<T> {
    #[verifier::type_invariant]
    spec fn well_formed(self) -> bool {
        &&& self.ready@.no_duplicates()
        &&& self.ready_queue@.no_duplicates()
        &&& forall|i: int| 0 <= i < self.ready_queue@.len() ==> self.ready@.contains(
            #[trigger] self.ready_queue@[i],
        )
        &&& keys_distinct(self.pending@)
    }

    /// All items which were marked ready.
    pub closed spec fn ready_set(self) -> Set<T> {
        self.ready@.to_set()
    }

    /// Ready items which were not taken yet, oldest first.
    pub closed spec fn queue(self) -> Seq<T> {
        self.ready_queue@
    }

    /// For each item, the items waiting on it and their dependencies.
    pub closed spec fn pending_map(self) -> Map<T, Seq<(T, Seq<T>)>> {
        entries_map(self.pending@).map_values(|v: Vec<(T, Vec<T>)>| dependents_view(v))
    }
}

impl<T: OperationId> Default for PartialOrdererState<T> {
    fn default() -> (r: Self)
        ensures
            r.ready_set() == Set::<T>::empty(),
            r.queue() == Seq::<T>::empty(),
            r.pending_map() == Map::<T, Seq<(T, Seq<T>)>>::empty(),
    {
        let r = PartialOrdererState { ready: Vec::new(), ready_queue: VecDeque::new(), pending: Vec::new() };
        assert(r.ready@.to_set() =~= Set::<T>::empty());
        assert(r.pending_map() =~= Map::<T, Seq<(T, Seq<T>)>>::empty());
        r
    }
}

/// Every item waiting on an item of `s` is in `s` and ranks below it: from the items of `s`,
/// waiting never goes round in a cycle.
pub open spec fn ranked_within<T>(p: Map<T, Seq<(T, Seq<T>)>>, rank: spec_fn(T) -> nat, s: Set<T>) -> bool {
    forall|k: T, i: int|
        s.contains(k) && p.contains_key(k) && 0 <= i < p[k].len() ==> s.contains(#[trigger] p[k][i].0) && rank(
            p[k][i].0,
        ) < rank(k)
}

/// Following the items waiting on `key`, and those waiting on them, waiting never goes round in a
/// cycle (cycles elsewhere in `p` do not matter).
pub open spec fn waiting_acyclic_from<T>(p: Map<T, Seq<(T, Seq<T>)>>, key: T) -> bool {
    exists|rank: spec_fn(T) -> nat, s: Set<T>| s.contains(key) && #[trigger] ranked_within(p, rank, s)
}

/// `n` waits on some item in `p` and all of its dependencies recorded there are in `ready`.
pub open spec fn justified<T>(p: Map<T, Seq<(T, Seq<T>)>>, ready: Set<T>, n: T) -> bool {
    exists|k: T, i: int|
        #![trigger p[k][i]]
        p.contains_key(k) && 0 <= i < p[k].len() && p[k][i].0 == n && p[k][i].1.to_set().subset_of(
            ready,
        )
}

/// `b` follows from `a` by marking items ready whose dependencies became ready, and by forgetting
/// the waiting items of keys which are ready (or in `spare`):
///
/// - the ready queue only grows at its end, and the ready set by exactly what joined the queue,
/// - each newly ready item waited in `a` on dependencies which are all ready in `b`,
/// - pending entries are only dropped, never changed.
pub open spec fn advanced<T>(a: PartialOrdererState<T>, b: PartialOrdererState<T>, spare: Set<T>) -> bool {
    &&& a.queue().is_prefix_of(b.queue())
    &&& b.ready_set() == a.ready_set().union(b.queue().skip(a.queue().len() as int).to_set())
    &&& forall|n: T|
        #[trigger] b.ready_set().contains(n) && !a.ready_set().contains(n) ==> justified(
            a.pending_map(),
            b.ready_set(),
            n,
        )
    &&& forall|k: T|
        #[trigger] b.pending_map().contains_key(k) ==> a.pending_map().contains_key(k)
            && b.pending_map()[k] == a.pending_map()[k]
    &&& forall|k: T|
        #[trigger] a.pending_map().contains_key(k) && !b.pending_map().contains_key(k) ==> (
        b.ready_set().contains(k) || spare.contains(k))
}

/// Outcome of processing the items waiting on `key`: the state advanced, the entry of `key` is
/// gone, and every item which waited on `key` with all its dependencies ready beforehand is ready.
pub open spec fn pending_processed<T>(
    a: PartialOrdererState<T>,
    b: PartialOrdererState<T>,
    key: T,
) -> bool {
    &&& advanced(a, b, set![key])
    &&& !b.pending_map().contains_key(key)
    &&& forall|i: int|
        a.pending_map().contains_key(key) && 0 <= i < a.pending_map()[key].len() && (
        #[trigger] a.pending_map()[key][i]).1.to_set().subset_of(a.ready_set())
            ==> b.ready_set().contains(a.pending_map()[key][i].0)
}

proof fn lemma_justified_mono<T>(
    p: Map<T, Seq<(T, Seq<T>)>>,
    q: Map<T, Seq<(T, Seq<T>)>>,
    r1: Set<T>,
    r2: Set<T>,
    n: T,
)
    requires
        justified(p, r1, n),
        r1.subset_of(r2),
        forall|k: T| #[trigger] p.contains_key(k) ==> q.contains_key(k) && p[k] == q[k],
    ensures
        justified(q, r2, n),
{
    let (k, i) = choose|k: T, i: int|
        #![trigger p[k][i]]
        p.contains_key(k) && 0 <= i < p[k].len() && p[k][i].0 == n && p[k][i].1.to_set().subset_of(
            r1,
        );
    assert(q.contains_key(k) && q[k][i] == p[k][i]);
}

proof fn lemma_advanced_refl<T>(a: PartialOrdererState<T>)
    ensures
        advanced(a, a, Set::empty()),
{
    assert(a.queue().skip(a.queue().len() as int) =~= Seq::<T>::empty());
    assert(a.ready_set().union(Seq::<T>::empty().to_set()) =~= a.ready_set());
}

proof fn lemma_advanced_trans<T>(a: PartialOrdererState<T>, b: PartialOrdererState<T>, c: PartialOrdererState<T>)
    requires
        advanced(a, b, Set::empty()),
        advanced(b, c, Set::empty()),
    ensures
        advanced(a, c, Set::empty()),
{
    let qa = a.queue();
    let qb = b.queue();
    let qc = c.queue();
    assert(qa.is_prefix_of(qc)) by {
        assert forall|i: int| 0 <= i < qa.len() implies qa[i] == qc[i] by {
            assert(qb[i] == qa[i]);
        }
    }
    assert(qc.skip(qa.len() as int) =~= qb.skip(qa.len() as int) + qc.skip(qb.len() as int)) by {
        assert forall|i: int| 0 <= i < qc.len() - qa.len() implies qc.skip(qa.len() as int)[i] == (
        qb.skip(qa.len() as int) + qc.skip(qb.len() as int))[i] by {
            if i < qb.len() - qa.len() {
                assert(qc[qa.len() + i] == qb[qa.len() + i]);
            }
        }
    }
    vstd::seq_lib::seq_to_set_distributes_over_add(qb.skip(qa.len() as int), qc.skip(qb.len() as int));
    assert(c.ready_set() =~= a.ready_set().union(qc.skip(qa.len() as int).to_set()));
    assert forall|n: T| #[trigger] c.ready_set().contains(n) && !a.ready_set().contains(n) implies justified(
        a.pending_map(),
        c.ready_set(),
        n,
    ) by {
        if b.ready_set().contains(n) {
            lemma_justified_mono(a.pending_map(), a.pending_map(), b.ready_set(), c.ready_set(), n);
        } else {
            lemma_justified_mono(b.pending_map(), a.pending_map(), c.ready_set(), c.ready_set(), n);
        }
    }
    assert forall|k: T| #[trigger] a.pending_map().contains_key(k) && !c.pending_map().contains_key(k) implies c.ready_set().contains(k) by {
        if b.pending_map().contains_key(k) {
        } else {
            assert(b.ready_set().contains(k));
        }
    }
}

/// Marking `n` ready, where `n` waits in `a` on dependencies which are ready in `b`, advances `b`.
proof fn lemma_advanced_mark<T>(
    a: PartialOrdererState<T>,
    b: PartialOrdererState<T>,
    c: PartialOrdererState<T>,
    n: T,
    inserted: bool,
)
    requires
        advanced(a, b, Set::empty()),
        justified(a.pending_map(), c.ready_set(), n),
        inserted == !b.ready_set().contains(n),
        c.ready_set() == b.ready_set().insert(n),
        c.queue() == (if inserted { b.queue().push(n) } else { b.queue() }),
        c.pending_map() == b.pending_map(),
    ensures
        advanced(a, c, Set::empty()),
{
    let qa = a.queue();
    let qb = b.queue();
    let qc = c.queue();
    assert(qa.is_prefix_of(qc)) by {
        assert forall|i: int| 0 <= i < qa.len() implies qa[i] == qc[i] by {
            assert(qb[i] == qa[i]);
        }
    }
    if inserted {
        assert(qc.skip(qa.len() as int) =~= qb.skip(qa.len() as int).push(n));
        qb.skip(qa.len() as int).lemma_push_to_set_commute(n);
        assert(c.ready_set() =~= a.ready_set().union(qc.skip(qa.len() as int).to_set()));
    } else {
        assert(c.ready_set() =~= b.ready_set());
    }
    assert forall|m: T| #[trigger] c.ready_set().contains(m) && !a.ready_set().contains(m) implies justified(
        a.pending_map(),
        c.ready_set(),
        m,
    ) by {
        if m != n {
            lemma_justified_mono(a.pending_map(), a.pending_map(), b.ready_set(), c.ready_set(), m);
        }
    }
}

impl<T: OperationId> Clone for PartialOrdererState<T> {
    fn clone(&self) -> (r: Self)
        ensures
            r.ready_set() == self.ready_set(),
            r.queue() == self.queue(),
            r.pending_map() == self.pending_map(),
    {
        proof {
            use_type_invariant(self);
        }
        let mut queue: VecDeque<T> = VecDeque::new();
        let mut i: usize = 0;
        while i < self.ready_queue.len()
            invariant
                i <= self.ready_queue@.len(),
                queue@ == self.ready_queue@.take(i as int),
            decreases self.ready_queue@.len() - i,
        {
            queue.push_back(self.ready_queue[i]);
            i = i + 1;
            assert(queue@ =~= self.ready_queue@.take(i as int));
        }
        assert(self.ready_queue@.take(self.ready_queue@.len() as int) =~= self.ready_queue@);
        let mut pending: Vec<(T, Vec<(T, Vec<T>)>)> = Vec::new();
        let mut k: usize = 0;
        while k < self.pending.len()
            invariant
                k <= self.pending@.len(),
                keys_distinct(self.pending@),
                pending@.len() == k,
                forall|j: int| 0 <= j < k ==> #[trigger] pending@[j].0 == self.pending@[j].0,
                forall|j: int|
                    0 <= j < k ==> dependents_view(#[trigger] pending@[j].1) == dependents_view(
                        self.pending@[j].1,
                    ),
            decreases self.pending@.len() - k,
        {
            pending.push((self.pending[k].0, copy_dependents(&self.pending[k].1)));
            k = k + 1;
        }
        proof {
            assert forall|a: int, b: int|
                0 <= a < pending@.len() && 0 <= b < pending@.len() && a != b implies pending@[a].0
                != pending@[b].0 by {
                assert(pending@[a].0 == self.pending@[a].0);
                assert(pending@[b].0 == self.pending@[b].0);
            }
            let m1 = entries_map(pending@);
            let m0 = entries_map(self.pending@);
            assert forall|x: T| #[trigger] m1.contains_key(x) == m0.contains_key(x) by {
                if has_key(pending@, x) {
                    let j = choose|j: int| 0 <= j < pending@.len() && pending@[j].0 == x;
                    assert(self.pending@[j].0 == x);
                }
                if has_key(self.pending@, x) {
                    let j = choose|j: int| 0 <= j < self.pending@.len() && self.pending@[j].0 == x;
                    assert(pending@[j].0 == x);
                }
            }
            assert forall|x: T| #[trigger] m1.contains_key(x) implies dependents_view(m1[x])
                == dependents_view(m0[x]) by {
                let j = choose|j: int| 0 <= j < pending@.len() && pending@[j].0 == x;
                lemma_entries_map_index(pending@, j);
                lemma_entries_map_index(self.pending@, j);
            }
            assert(entries_map(pending@).map_values(|v: Vec<(T, Vec<T>)>| dependents_view(v))
                =~= self.pending_map());
        }
        PartialOrdererState { ready: copy_items(&self.ready), ready_queue: queue, pending }
    }
}

/// Returns `true` if `x` occurs in `v`.
fn contains_item<T: OperationId>(v: &Vec<T>, x: T) -> (r: bool)
    ensures
        r == v@.contains(x),
{
    let mut i: usize = 0;
    while i < v.len()
        invariant
            i <= v@.len(),
            forall|j: int| 0 <= j < i ==> v@[j] != x,
        decreases v@.len() - i,
    {
        if v[i].is_same_operation(&x) {
            return true;
        }
        i = i + 1;
    }
    false
}

/// Returns `true` if both lists hold the same items in the same order.
fn same_items<T: OperationId>(a: &Vec<T>, b: &Vec<T>) -> (r: bool)
    ensures
        r == (a@ == b@),
{
    if a.len() != b.len() {
        return false;
    }
    let mut i: usize = 0;
    while i < a.len()
        invariant
            i <= a@.len(),
            a@.len() == b@.len(),
            forall|j: int| 0 <= j < i ==> a@[j] == b@[j],
        decreases a@.len() - i,
    {
        if !a[i].is_same_operation(&b[i]) {
            return false;
        }
        i = i + 1;
    }
    assert(a@ =~= b@);
    true
}

/// A copy of a list of items.
pub(crate) fn copy_items<T: Copy>(v: &Vec<T>) -> (r: Vec<T>)
    ensures
        r@ == v@,
{
    let mut out: Vec<T> = Vec::new();
    let mut i: usize = 0;
    while i < v.len()
        invariant
            i <= v@.len(),
            out@ == v@.take(i as int),
        decreases v@.len() - i,
    {
        out.push(v[i]);
        i = i + 1;
        assert(out@ =~= v@.take(i as int));
    }
    assert(v@.take(v@.len() as int) =~= v@);
    out
}

/// Position of the entry for `key`, if any.
fn find_key<T: OperationId, V>(entries: &Vec<(T, V)>, key: T) -> (r: Option<usize>)
    ensures
        match r {
            Some(i) => i < entries@.len() && entries@[i as int].0 == key,
            None => !has_key(entries@, key),
        },
{
    let mut i: usize = 0;
    while i < entries.len()
        invariant
            i <= entries@.len(),
            forall|j: int| 0 <= j < i ==> entries@[j].0 != key,
        decreases entries@.len() - i,
    {
        if entries[i].0.is_same_operation(&key) {
            return Some(i);
        }
        i = i + 1;
    }
    None
}

/// Returns `true` if `list` holds the entry `(key, deps)`.
fn has_dependent<T: OperationId>(list: &Vec<(T, Vec<T>)>, key: T, deps: &Vec<T>) -> (r: bool)
    ensures
        r == dependents_view(*list).contains((key, deps@)),
{
    let ghost view = dependents_view(*list);
    let mut i: usize = 0;
    while i < list.len()
        invariant
            i <= list@.len(),
            view == dependents_view(*list),
            forall|j: int| 0 <= j < i ==> view[j] != (key, deps@),
        decreases list@.len() - i,
    {
        if list[i].0.is_same_operation(&key) && same_items(&list[i].1, deps) {
            assert(view[i as int] == (key, deps@));
            return true;
        }
        assert(view[i as int] == (list@[i as int].0, list@[i as int].1@));
        i = i + 1;
    }
    false
}

/// A copy of a list of waiting items.
fn copy_dependents<T: OperationId>(list: &Vec<(T, Vec<T>)>) -> (r: Vec<(T, Vec<T>)>)
    ensures
        dependents_view(r) == dependents_view(*list),
{
    let mut out: Vec<(T, Vec<T>)> = Vec::new();
    let mut i: usize = 0;
    while i < list.len()
        invariant
            i <= list@.len(),
            dependents_view(out) == dependents_view(*list).take(i as int),
        decreases list@.len() - i,
    {
        let ghost before = out;
        out.push((list[i].0, copy_items(&list[i].1)));
        i = i + 1;
        assert(dependents_view(out) =~= dependents_view(*list).take(i as int)) by {
            assert(dependents_view(out) =~= dependents_view(before).push(
                (list@[i - 1].0, list@[i - 1].1@),
            ));
        }
    }
    assert(dependents_view(*list).take(list@.len() as int) =~= dependents_view(*list));
    out
}

impl<T: OperationId> PartialOrderer<T> {
    /// Mark an item as ready; it joins the ready queue unless it was ready already.
    ///
    /// Returns `true` if the item was not ready before.
    pub fn mark_ready(y: PartialOrdererState<T>, key: T) -> (r: Result<
        (PartialOrdererState<T>, bool),
        PartialOrdererError,
    >)
        ensures
            r matches Ok((y_i, inserted)) && {
                &&& inserted == !y.ready_set().contains(key)
                &&& y_i.ready_set() == y.ready_set().insert(key)
                &&& y_i.queue() == (if inserted { y.queue().push(key) } else { y.queue() })
                &&& y_i.pending_map() == y.pending_map()
            },
    {
        proof {
            use_type_invariant(&y);
        }
        let PartialOrdererState { mut ready, mut ready_queue, pending } = y;
        let inserted = !contains_item(&ready, key);
        if inserted {
            ready.push(key);
            ready_queue.push_back(key);
            proof {
                y.ready@.lemma_push_to_set_commute(key);
                assert forall|i: int| 0 <= i < ready_queue@.len() implies ready@.contains(
                    #[trigger] ready_queue@[i],
                ) by {
                    if i < y.ready_queue@.len() {
                        assert(y.ready@.contains(y.ready_queue@[i]));
                        let j = choose|j: int| 0 <= j < y.ready@.len() && y.ready@[j] == y.ready_queue@[i];
                        assert(ready@[j] == y.ready@[j]);
                    } else {
                        assert(ready@[ready@.len() - 1] == key);
                    }
                }
            }
        }
        Ok((PartialOrdererState { ready, ready_queue, pending }, inserted))
    }

    /// Take the oldest item from the ready queue, if there is one.
    pub fn take_next_ready(y: PartialOrdererState<T>) -> (r: Result<
        (PartialOrdererState<T>, Option<T>),
        PartialOrdererError,
    >)
        ensures
            r matches Ok((y_i, next)) && {
                &&& y_i.ready_set() == y.ready_set()
                &&& y_i.pending_map() == y.pending_map()
                &&& if y.queue().len() == 0 {
                    next is None && y_i.queue() == y.queue()
                } else {
                    next == Some(y.queue()[0]) && y_i.queue() == y.queue().drop_first()
                }
            },
    {
        proof {
            use_type_invariant(&y);
        }
        let PartialOrdererState { ready, mut ready_queue, pending } = y;
        let next = ready_queue.pop_front();
        proof {
            assert forall|i: int| 0 <= i < ready_queue@.len() implies ready@.contains(
                #[trigger] ready_queue@[i],
            ) by {
                assert(ready_queue@[i] == y.ready_queue@[i + 1]);
            }
        }
        Ok((PartialOrdererState { ready, ready_queue, pending }, next))
    }

    /// Returns `true` if all given dependencies are ready.
    pub fn ready(y: &PartialOrdererState<T>, dependencies: &[T]) -> (r: Result<
        bool,
        PartialOrdererError,
    >)
        ensures
            r matches Ok(b) && b == dependencies@.to_set().subset_of(y.ready_set()),
    {
        let mut i: usize = 0;
        while i < dependencies.len()
            invariant
                i <= dependencies@.len(),
                forall|j: int| 0 <= j < i ==> y.ready@.contains(#[trigger] dependencies@[j]),
            decreases dependencies@.len() - i,
        {
            if !contains_item(&y.ready, dependencies[i]) {
                proof {
                    assert(dependencies@.to_set().contains(dependencies@[i as int]));
                }
                return Ok(false);
            }
            i = i + 1;
        }
        proof {
            assert forall|d: T| dependencies@.to_set().contains(d) implies y.ready_set().contains(
                d,
            ) by {
                let j = choose|j: int| 0 <= j < dependencies@.len() && dependencies@[j] == d;
                assert(y.ready@.contains(dependencies@[j]));
            }
        }
        Ok(true)
    }

    /// Record that `key` waits on each of its dependencies which is not ready yet.
    ///
    /// Always returns `false`.
    pub fn mark_pending(y: PartialOrdererState<T>, key: T, dependencies: Vec<T>) -> (r: Result<
        (PartialOrdererState<T>, bool),
        PartialOrdererError,
    >)
        ensures
            r matches Ok((y_i, inserted)) && {
                &&& !inserted
                &&& y_i.ready_set() == y.ready_set()
                &&& y_i.queue() == y.queue()
                &&& y_i.pending_map() == record_waiting(
                    y.pending_map(),
                    y.ready_set(),
                    key,
                    dependencies@,
                    dependencies@,
                )
            },
    {
        proof {
            use_type_invariant(&y);
        }
        let PartialOrdererState { ready, ready_queue, mut pending } = y;
        let ghost p0 = y.pending_map();
        let ghost rs = y.ready_set();
        let mut i: usize = 0;
        while i < dependencies.len()
            invariant
                i <= dependencies@.len(),
                ready@ == y.ready@,
                rs == ready@.to_set(),
                keys_distinct(pending@),
                entries_map(pending@).map_values(|v: Vec<(T, Vec<T>)>| dependents_view(v))
                    == record_waiting(p0, rs, key, dependencies@, dependencies@.take(i as int)),
            decreases dependencies@.len() - i,
        {
            let dep = dependencies[i];
            let ghost before = entries_map(pending@);
            let ghost before_view = before.map_values(|v: Vec<(T, Vec<T>)>| dependents_view(v));
            let ghost grows = !rs.contains(dep) && !(before_view.contains_key(dep)
                && before_view[dep].contains((key, dependencies@)));
            let ghost expected = if grows {
                before_view.insert(
                    dep,
                    with_dependent(
                        if before_view.contains_key(dep) {
                            before_view[dep]
                        } else {
                            Seq::empty()
                        },
                        (key, dependencies@),
                    ),
                )
            } else {
                before_view
            };
            let ghost among = dependencies@.take(i as int);
            let ghost among_next = dependencies@.take(i + 1);
            assert(among_next =~= among.push(dep));
            if !contains_item(&ready, dep) {
                match find_key(&pending, dep) {
                    Some(j) => {
                        proof {
                            lemma_entries_map_index(pending@, j as int);
                        }
                        if !has_dependent(&pending[j].1, key, &dependencies) {
                            let mut list = replace_value(&mut pending, j, Vec::new());
                            let ghost old_list = list;
                            list.push((key, copy_items(&dependencies)));
                            let ghost mid = pending@;
                            replace_value(&mut pending, j, list);
                            proof {
                                assert(dependents_view(list) =~= dependents_view(old_list).push(
                                    (key, dependencies@),
                                ));
                                assert(entries_map(pending@) =~= before.insert(dep, list));
                            }
                        }
                    },
                    None => {
                        let mut list: Vec<(T, Vec<T>)> = Vec::new();
                        list.push((key, copy_items(&dependencies)));
                        proof {
                            lemma_entries_map_push(pending@, dep, list);
                            assert(dependents_view(list) =~= seq![(key, dependencies@)]);
                        }
                        pending.push((dep, list));
                    },
                }
            }
            assert(entries_map(pending@).map_values(|v: Vec<(T, Vec<T>)>| dependents_view(v))
                =~= expected);
            i = i + 1;
            proof {
                assert forall|k: T| among_next.contains(k) <==> (among.contains(k) || k == dep) by {
                    if among_next.contains(k) {
                        let j = choose|j: int| 0 <= j < among_next.len() && among_next[j] == k;
                        if j < among.len() {
                            assert(among[j] == k);
                        }
                    }
                    if among.contains(k) {
                        let j = choose|j: int| 0 <= j < among.len() && among[j] == k;
                        assert(among_next[j] == k);
                    }
                    if k == dep {
                        assert(among_next[among.len() as int] == k);
                    }
                }
                let after = entries_map(pending@).map_values(
                    |v: Vec<(T, Vec<T>)>| dependents_view(v),
                );
                let target = record_waiting(p0, rs, key, dependencies@, among_next);
                let prev = record_waiting(p0, rs, key, dependencies@, among);
                assert(before_view == prev);
                assert forall|k: T| #[trigger] target.contains_key(k) == expected.contains_key(k) by {
                    assert(among_next.contains(k) == (among.contains(k) || k == dep));
                }
                assert forall|k: T| #[trigger] target.contains_key(k) implies target[k] == expected[k] by {
                    assert(among_next.contains(k) == (among.contains(k) || k == dep));
                    if k == dep && !rs.contains(dep) && among.contains(dep) {
                        let l = if p0.contains_key(dep) {
                            p0[dep]
                        } else {
                            Seq::empty()
                        };
                        if !l.contains((key, dependencies@)) {
                            assert(l.push((key, dependencies@))[l.len() as int] == (
                                key,
                                dependencies@,
                            ));
                        }
                        assert(prev[dep].contains((key, dependencies@)));
                    }
                }
                assert(target =~= expected);
            }
        }
        assert(dependencies@.take(dependencies@.len() as int) =~= dependencies@);
        Ok((PartialOrdererState { ready, ready_queue, pending }, false))
    }

    /// The items waiting on `key` together with their dependencies, if there are any.
    pub fn get_next_pending(y: &PartialOrdererState<T>, key: T) -> (r: Result<
        Option<Vec<(T, Vec<T>)>>,
        PartialOrdererError,
    >)
        ensures
            r matches Ok(next) && match next {
                Some(v) => y.pending_map().contains_key(key) && dependents_view(v)
                    == y.pending_map()[key],
                None => !y.pending_map().contains_key(key),
            },
    {
        proof {
            use_type_invariant(y);
        }
        match find_key(&y.pending, key) {
            Some(j) => {
                proof {
                    lemma_entries_map_index(y.pending@, j as int);
                }
                Ok(Some(copy_dependents(&y.pending[j].1)))
            },
            None => Ok(None),
        }
    }

    /// Forget the items waiting on `key`.
    ///
    /// Returns `true` if there were any.
    pub fn remove_pending(y: PartialOrdererState<T>, key: T) -> (r: Result<
        (PartialOrdererState<T>, bool),
        PartialOrdererError,
    >)
        ensures
            r matches Ok((y_i, removed)) && {
                &&& removed == y.pending_map().contains_key(key)
                &&& y_i.ready_set() == y.ready_set()
                &&& y_i.queue() == y.queue()
                &&& y_i.pending_map() == y.pending_map().remove(key)
            },
    {
        proof {
            use_type_invariant(&y);
        }
        let PartialOrdererState { ready, ready_queue, mut pending } = y;
        match find_key(&pending, key) {
            Some(j) => {
                let ghost before = pending@;
                pending.remove(j);
                proof {
                    lemma_entries_map_remove(before, j as int);
                    assert(entries_map(pending@).map_values(
                        |v: Vec<(T, Vec<T>)>| dependents_view(v),
                    ) =~= y.pending_map().remove(key));
                }
                Ok((PartialOrdererState { ready, ready_queue, pending }, true))
            },
            None => {
                proof {
                    assert(y.pending_map().remove(key) =~= y.pending_map());
                }
                Ok((PartialOrdererState { ready, ready_queue, pending }, false))
            },
        }
    }

    /// Mark as ready, recursively, the items waiting on `key` whose dependencies are all ready,
    /// then forget the items waiting on `key`.
    ///
    /// Items are expected to form a directed acyclic graph; a cycle among the items waiting on
    /// `key`, directly or through others, would make the recursion go on forever.
    pub fn process_pending(y: PartialOrdererState<T>, key: T) -> (r: Result<
        PartialOrdererState<T>,
        PartialOrdererError,
    >)
        requires
            waiting_acyclic_from(y.pending_map(), key),
        ensures
            r matches Ok(y_i) && pending_processed(y, y_i, key),
    {
        let ghost (rank, within) = choose|rank: spec_fn(T) -> nat, s: Set<T>|
            s.contains(key) && #[trigger] ranked_within(y.pending_map(), rank, s);
        Self::process_from(y, key, Ghost(rank), Ghost(within))
    }

    fn process_from(
        y: PartialOrdererState<T>,
        key: T,
        Ghost(rank): Ghost<spec_fn(T) -> nat>,
        Ghost(within): Ghost<Set<T>>,
    ) -> (r: Result<PartialOrdererState<T>, PartialOrdererError>)
        requires
            within.contains(key),
            ranked_within(y.pending_map(), rank, within),
        ensures
            r matches Ok(y_i) && pending_processed(y, y_i, key),
        decreases rank(key),
    {
        let ghost y0 = y;
        let next = match Self::get_next_pending(&y, key) {
            Ok(next) => next,
            Err(e) => return Err(e),
        };
        let dependents = match next {
            Some(dependents) => dependents,
            None => {
                proof {
                    lemma_advanced_refl(y);
                }
                return Ok(y);
            },
        };
        let ghost dv = dependents_view(dependents);
        let mut y_loop = y;
        proof {
            lemma_advanced_refl(y0);
        }
        let mut j: usize = 0;
        while j < dependents.len()
            invariant
                j <= dependents@.len(),
                dv == dependents_view(dependents),
                y0.pending_map().contains_key(key),
                y0.pending_map()[key] == dv,
                within.contains(key),
                ranked_within(y0.pending_map(), rank, within),
                advanced(y0, y_loop, Set::empty()),
                forall|jj: int|
                    0 <= jj < j && dv[jj].1.to_set().subset_of(y0.ready_set())
                        ==> y_loop.ready_set().contains(#[trigger] dv[jj].0),
            decreases dependents@.len() - j,
        {
            let next_key = dependents[j].0;
            let ghost before = y_loop;
            assert(dv[j as int] == (next_key, dependents@[j as int].1@));
            let is_ready = match Self::ready(&y_loop, dependents[j].1.as_slice()) {
                Ok(b) => b,
                Err(e) => return Err(e),
            };
            if is_ready {
                let (y1, inserted) = match Self::mark_ready(y_loop, next_key) {
                    Ok(v) => v,
                    Err(e) => return Err(e),
                };
                proof {
                    assert(justified(y0.pending_map(), y1.ready_set(), next_key)) by {
                        assert(y0.pending_map()[key][j as int] == dv[j as int]);
                        assert(dv[j as int].1.to_set().subset_of(y1.ready_set()));
                    }
                    lemma_advanced_mark(y0, before, y1, next_key, inserted);
                    assert(rank(y0.pending_map()[key][j as int].0) < rank(key));
                    assert(within.contains(y0.pending_map()[key][j as int].0));
                    assert forall|k: T, i: int|
                        within.contains(k) && y1.pending_map().contains_key(k) && 0 <= i < y1.pending_map()[k].len()
                            implies within.contains(#[trigger] y1.pending_map()[k][i].0) && rank(
                            y1.pending_map()[k][i].0,
                        ) < rank(k) by {
                        assert(y0.pending_map().contains_key(k));
                        assert(y0.pending_map()[k][i] == y1.pending_map()[k][i]);
                    }
                }
                let y2 = match Self::process_from(y1, next_key, Ghost(rank), Ghost(within)) {
                    Ok(v) => v,
                    Err(e) => return Err(e),
                };
                proof {
                    assert forall|k: T| #[trigger] y1.pending_map().contains_key(k)
                        && !y2.pending_map().contains_key(k) implies y2.ready_set().contains(k) by {
                        if k == next_key {
                            assert(y1.ready_set().contains(next_key));
                        }
                    }
                    assert(advanced(y1, y2, Set::empty()));
                    lemma_advanced_trans(y0, y1, y2);
                }
                y_loop = y2;
            }
            proof {
                assert forall|jj: int|
                    0 <= jj < j + 1 && dv[jj].1.to_set().subset_of(y0.ready_set())
                        implies y_loop.ready_set().contains(#[trigger] dv[jj].0) by {
                    if jj < j {
                        assert(before.ready_set().contains(dv[jj].0));
                    } else {
                        assert(dependents@[j as int].1@.to_set().subset_of(before.ready_set()));
                    }
                }
            }
            j = j + 1;
        }
        let ghost last = y_loop;
        let (y_fin, _) = match Self::remove_pending(y_loop, key) {
            Ok(v) => v,
            Err(e) => return Err(e),
        };
        proof {
            assert(y_fin.queue() == last.queue());
            assert(y_fin.ready_set() == last.ready_set());
            assert forall|k: T| #[trigger] y0.pending_map().contains_key(k)
                && !y_fin.pending_map().contains_key(k) implies (y_fin.ready_set().contains(k)
                || set![key].contains(k)) by {
                if k != key {
                    assert(!last.pending_map().contains_key(k));
                }
            }
            assert forall|n: T| #[trigger] y_fin.ready_set().contains(n) && !y0.ready_set().contains(n) implies justified(
                y0.pending_map(),
                y_fin.ready_set(),
                n,
            ) by {
                assert(last.ready_set().contains(n));
            }
            assert forall|i: int|
                y0.pending_map().contains_key(key) && 0 <= i < y0.pending_map()[key].len() && (
                #[trigger] y0.pending_map()[key][i]).1.to_set().subset_of(y0.ready_set())
                    implies y_fin.ready_set().contains(y0.pending_map()[key][i].0) by {
                assert(dv[i] == y0.pending_map()[key][i]);
            }
        }
        Ok(y_fin)
    }
}


/// Error of the test orderer. Queueing cannot fail: no value of this type is ever made, and its
/// private field keeps code outside this crate from making one.
#[derive(Debug)]
pub struct OrdererError {
    unused: (),
}

/// `b` is `a` with `key` marked ready: added to the ready set, and to the end of the ready queue
/// unless it was ready already.
pub open spec fn marked_ready<T>(a: PartialOrdererState<T>, b: PartialOrdererState<T>, key: T) -> bool {
    &&& b.ready_set() == a.ready_set().insert(key)
    &&& b.queue() == (if a.ready_set().contains(key) {
        a.queue()
    } else {
        a.queue().push(key)
    })
    &&& b.pending_map() == a.pending_map()
}

/// Orderer used in tests, which hands out operations once all their dependencies were handed out.
pub struct TestOrderer {}

impl TestOrderer {
    /// Queue the operation `id` with the given dependencies.
    ///
    /// When all dependencies are ready, the operation becomes ready and releases the operations
    /// waiting on it; otherwise it waits on its missing dependencies.
    pub fn queue<T: OperationId>(
        y: PartialOrdererState<T>,
        id: T,
        dependencies: Vec<T>,
    ) -> (r: Result<PartialOrdererState<T>, OrdererError>)
        requires
            waiting_acyclic_from(y.pending_map(), id),
        ensures
            r matches Ok(y_i) && if dependencies@.to_set().subset_of(y.ready_set()) {
                exists|m: PartialOrdererState<T>|
                    #[trigger] marked_ready(y, m, id) && pending_processed(m, y_i, id)
            } else {
                &&& y_i.ready_set() == y.ready_set()
                &&& y_i.queue() == y.queue()
                &&& y_i.pending_map() == record_waiting(
                    y.pending_map(),
                    y.ready_set(),
                    id,
                    dependencies@,
                    dependencies@,
                )
            },
    {
        let ready = match PartialOrderer::ready(&y, dependencies.as_slice()) {
            Ok(b) => b,
            Err(_) => return Err(OrdererError { unused: () }),
        };
        if !ready {
            match PartialOrderer::mark_pending(y, id, dependencies) {
                Ok((y_i, _)) => Ok(y_i),
                Err(_) => Err(OrdererError { unused: () }),
            }
        } else {
            let (y_i, _) = match PartialOrderer::mark_ready(y, id) {
                Ok(v) => v,
                Err(_) => return Err(OrdererError { unused: () }),
            };
            match PartialOrderer::process_pending(y_i, id) {
                Ok(y_ii) => {
                    proof {
                        assert(marked_ready(y, y_i, id));
                    }
                    Ok(y_ii)
                },
                Err(_) => Err(OrdererError { unused: () }),
            }
        }
    }
}

} // verus!
