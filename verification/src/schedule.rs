//! The order in which the systems that handle one event run.
//!
//! A schedule lists the handlers of an event in an order that respects every
//! declared `run_before` and `run_after`, and says for each handler which
//! earlier ones it has to wait for: those it conflicts with. Handlers that do
//! not wait for one another may run at the same time. Declared orders that
//! run in a circle allow no schedule at all.

use vstd::prelude::*;
use crate::system::System;

verus! {

/// The system with index `i` handles `event`.
pub open spec fn handles_at(systems: Seq<System>, event: u64, i: int) -> bool {
    0 <= i < systems.len() && systems[i].handled().contains(event)
}

/// The system with index `i` is declared to run before the one with index `j`.
pub open spec fn precedes(systems: Seq<System>, i: usize, j: usize) -> bool {
    systems[i as int].ordered_before(&systems[j as int])
}

/// The systems with the indices `i` and `j` may not run at the same time.
pub open spec fn clash(systems: Seq<System>, i: usize, j: usize) -> bool {
    systems[i as int].conflicts_with(&systems[j as int])
}

/// `order` is a way to run the handlers of `event` one after the other:
/// it lists every system that handles the event once, and no system stands
/// behind one that it is declared to run before. A system that is declared
/// to run before itself can stand nowhere.
pub open spec fn is_order(systems: Seq<System>, event: u64, order: Seq<usize>) -> bool {
    &&& forall|p: int| 0 <= p < order.len() ==> handles_at(systems, event, #[trigger] order[p] as int)
    &&& forall|p: int, q: int| 0 <= p < q < order.len() ==> #[trigger] order[p] != #[trigger] order[q]
    &&& forall|i: int| #[trigger]
        handles_at(systems, event, i) ==> exists|p: int|
            0 <= p < order.len() && #[trigger] order[p] == i
    &&& forall|p: int, q: int|
        0 <= p <= q < order.len() ==> !#[trigger] precedes(systems, order[q], order[p])
}

/// The handlers of `event` can be put in an order: the declared orders
/// between them do not run in a circle.
pub open spec fn schedulable(systems: Seq<System>, event: u64) -> bool {
    exists|order: Seq<usize>| is_order(systems, event, order)
}

/// `h` lists the handlers of `event`, each once.
spec fn lists_handlers(systems: Seq<System>, event: u64, h: Seq<usize>) -> bool {
    &&& forall|a: int| 0 <= a < h.len() ==> handles_at(systems, event, #[trigger] h[a] as int)
    &&& forall|a: int, b: int| 0 <= a < b < h.len() ==> #[trigger] h[a] != #[trigger] h[b]
    &&& forall|i: int| #[trigger]
        handles_at(systems, event, i) ==> exists|a: int| 0 <= a < h.len() && #[trigger] h[a] == i
}

/// `order` holds the handlers of `h` that are `done`, in a way that no
/// handler, in `order` or still to come, has to run before one that stands
/// before it.
spec fn partial(systems: Seq<System>, h: Seq<usize>, done: Seq<bool>, order: Seq<usize>) -> bool {
    &&& h.len() == done.len()
    &&& order.len() + count_false(done) == h.len()
    &&& forall|p: int|
        #![trigger order[p]]
        0 <= p < order.len() ==> exists|a: int| 0 <= a < h.len() && done[a] && #[trigger] h[a] == order[p]
    &&& forall|a: int|
        0 <= a < h.len() && #[trigger] done[a] ==> exists|p: int|
            0 <= p < order.len() && #[trigger] order[p] == h[a]
    &&& forall|p: int, q: int| 0 <= p < q < order.len() ==> #[trigger] order[p] != #[trigger] order[q]
    &&& forall|p: int, q: int|
        0 <= p <= q < order.len() ==> !#[trigger] precedes(systems, order[q], order[p])
    &&& forall|p: int, b: int|
        0 <= p < order.len() && 0 <= b < h.len() && !done[b] ==> !#[trigger] precedes(
            systems,
            h[b],
            order[p],
        )
}

/// The handler at place `a` of `h` is not done and has to wait for none
/// that is not done, itself included.
spec fn free_at(systems: Seq<System>, h: Seq<usize>, done: Seq<bool>, a: int) -> bool {
    &&& 0 <= a < h.len()
    &&& !done[a]
    &&& forall|b: int| 0 <= b < h.len() && !done[b] ==> !#[trigger] precedes(systems, h[b], h[a])
}

/// The handler at place `a` of `h` has to wait for one that is not done.
spec fn blocked_at(systems: Seq<System>, h: Seq<usize>, done: Seq<bool>, a: int) -> bool {
    exists|b: int| 0 <= b < h.len() && !done[b] && #[trigger] precedes(systems, h[b], h[a])
}

/// Putting a free handler behind a partial order gives a partial order.
proof fn lemma_place(systems: Seq<System>, h: Seq<usize>, done: Seq<bool>, order: Seq<usize>, a: int)
    requires
        partial(systems, h, done, order),
        forall|a: int, b: int| 0 <= a < b < h.len() ==> #[trigger] h[a] != #[trigger] h[b],
        free_at(systems, h, done, a),
    ensures
        partial(systems, h, done.update(a, true), order.push(h[a])),
{
    let done2 = done.update(a, true);
    let order2 = order.push(h[a]);
    let last = order.len() as int;
    lemma_count_false_set(done, a);
    assert forall|p: int|
        #![trigger order2[p]]
        0 <= p < order2.len() implies exists|c: int|
        0 <= c < h.len() && done2[c] && #[trigger] h[c] == order2[p] by {
        if p < last {
            assert(order2[p] == order[p]);
            let c = choose|c: int| 0 <= c < h.len() && done[c] && #[trigger] h[c] == order[p];
            assert(done2[c] && h[c] == order2[p]);
        } else {
            assert(done2[a] && h[a] == order2[p]);
        }
    }
    assert forall|c: int| 0 <= c < h.len() && #[trigger] done2[c] implies exists|p: int|
        0 <= p < order2.len() && #[trigger] order2[p] == h[c] by {
        if c == a {
            assert(order2[last] == h[c]);
        } else {
            assert(done[c]);
            let p = choose|p: int| 0 <= p < order.len() && #[trigger] order[p] == h[c];
            assert(order2[p] == h[c]);
        }
    }
    assert forall|p: int, q: int| 0 <= p < q < order2.len() implies #[trigger] order2[p]
        != #[trigger] order2[q] by {
        if q == last {
            assert(order2[p] == order[p]);
            let c = choose|c: int| 0 <= c < h.len() && done[c] && #[trigger] h[c] == order[p];
            assert(c != a);
            if c < a {
                assert(h[c] != h[a]);
            } else {
                assert(h[a] != h[c]);
            }
        } else {
            assert(order2[p] == order[p] && order2[q] == order[q]);
        }
    }
    assert forall|p: int, q: int| 0 <= p <= q < order2.len() implies !#[trigger] precedes(
        systems,
        order2[q],
        order2[p],
    ) by {
        if q == last {
            if p < last {
                assert(order2[p] == order[p]);
                assert(!precedes(systems, h[a], order[p]));
            } else {
                assert(!precedes(systems, h[a], h[a]));
            }
        } else {
            assert(order2[p] == order[p] && order2[q] == order[q]);
            assert(!precedes(systems, order[q], order[p]));
        }
    }
    assert forall|p: int, b: int|
        0 <= p < order2.len() && 0 <= b < h.len() && !done2[b] implies !#[trigger] precedes(
        systems,
        h[b],
        order2[p],
    ) by {
        assert(!done[b]);
        if p < last {
            assert(order2[p] == order[p]);
            assert(!precedes(systems, h[b], order[p]));
        } else {
            assert(!precedes(systems, h[b], h[a]));
        }
    }
}

/// A partial order with every handler done is an order.
proof fn lemma_complete(systems: Seq<System>, event: u64, h: Seq<usize>, done: Seq<bool>, order: Seq<usize>)
    requires
        partial(systems, h, done, order),
        lists_handlers(systems, event, h),
        order.len() == h.len(),
    ensures
        is_order(systems, event, order),
{
    lemma_count_false_bounds(done);
    assert forall|i: int| #[trigger] handles_at(systems, event, i) implies exists|p: int|
        0 <= p < order.len() && #[trigger] order[p] == i by {
        let a = choose|a: int| 0 <= a < h.len() && #[trigger] h[a] == i;
        assert(done[a]);
        let p = choose|p: int| 0 <= p < order.len() && #[trigger] order[p] == h[a];
        assert(order[p] == i);
    }
    assert forall|p: int| 0 <= p < order.len() implies handles_at(
        systems,
        event,
        #[trigger] order[p] as int,
    ) by {
        let a = choose|a: int| 0 <= a < h.len() && done[a] && #[trigger] h[a] == order[p];
        assert(handles_at(systems, event, h[a] as int));
    }
}

/// Number of places of `s` that hold `false`.
pub open spec fn count_false(s: Seq<bool>) -> nat
    decreases s.len(),
{
    if s.len() == 0 {
        0
    } else {
        count_false(s.drop_last()) + if s.last() {
            0nat
        } else {
            1nat
        }
    }
}

proof fn lemma_count_false_set(s: Seq<bool>, a: int)
    requires
        0 <= a < s.len(),
        !s[a],
    ensures
        count_false(s.update(a, true)) + 1 == count_false(s),
    decreases s.len(),
{
    if a == s.len() - 1 {
        assert(s.update(a, true).drop_last() =~= s.drop_last());
    } else {
        assert(s.update(a, true).drop_last() =~= s.drop_last().update(a, true));
        lemma_count_false_set(s.drop_last(), a);
    }
}

proof fn lemma_count_false_bounds(s: Seq<bool>)
    ensures
        count_false(s) <= s.len(),
        count_false(s) == 0 ==> forall|a: int| 0 <= a < s.len() ==> s[a],
        (forall|a: int| 0 <= a < s.len() ==> !s[a]) ==> count_false(s) == s.len(),
        count_false(s) > 0 ==> exists|a: int| 0 <= a < s.len() && !s[a],
    decreases s.len(),
{
    if s.len() > 0 {
        lemma_count_false_bounds(s.drop_last());
        assert(forall|a: int| 0 <= a < s.len() - 1 ==> s.drop_last()[a] == s[a]);
        if count_false(s) > 0 {
            if !s.last() {
                assert(!s[s.len() - 1]);
            } else {
                let a = choose|a: int| 0 <= a < s.drop_last().len() && !s.drop_last()[a];
                assert(!s[a]);
            }
        }
    }
}

/// The first place up to `k` of `order` whose system is among those that
/// `left` marks.
proof fn lemma_first_marked(order: Seq<usize>, left: spec_fn(usize) -> bool, k: int) -> (p: int)
    requires
        0 <= k < order.len(),
        left(order[k]),
    ensures
        0 <= p <= k,
        left(order[p]),
        forall|q: int| 0 <= q < p ==> !left(order[q]),
    decreases k,
{
    if exists|q: int| 0 <= q < k && left(order[q]) {
        let q = choose|q: int| 0 <= q < k && left(order[q]);
        lemma_first_marked(order, left, q)
    } else {
        k
    }
}

/// The handlers that are not done cannot be put in any order when each of
/// them has to wait for one of them.
proof fn lemma_stuck_means_circle(systems: Seq<System>, event: u64, h: Seq<usize>, done: Seq<bool>)
    requires
        h.len() == done.len(),
        lists_handlers(systems, event, h),
        exists|a: int| 0 <= a < h.len() && !done[a],
        forall|a: int| 0 <= a < h.len() && !#[trigger] done[a] ==> blocked_at(systems, h, done, a),
    ensures
        !schedulable(systems, event),
{
    if schedulable(systems, event) {
        let order = choose|order: Seq<usize>| is_order(systems, event, order);
        let left = |i: usize| exists|a: int| 0 <= a < h.len() && !done[a] && h[a] == i;
        let a0 = choose|a: int| 0 <= a < h.len() && !done[a];
        assert(handles_at(systems, event, h[a0] as int));
        let k = choose|p: int| 0 <= p < order.len() && #[trigger] order[p] == h[a0] as int;
        assert(left(order[k]));
        let p = lemma_first_marked(order, left, k);
        let a = choose|a: int| 0 <= a < h.len() && !done[a] && h[a] == order[p];
        assert(blocked_at(systems, h, done, a));
        let b = choose|b: int| 0 <= b < h.len() && !done[b] && #[trigger] precedes(systems, h[b], h[a]);
        assert(handles_at(systems, event, h[b] as int));
        let q = choose|q: int| 0 <= q < order.len() && #[trigger] order[q] == h[b] as int;
        assert(left(order[q]));
        assert(p <= q);
        assert(!precedes(systems, order[q], order[p]));
    }
}

/// The order in which the handlers of one event run, and what each waits for.
pub struct Schedule {
    event: u64,
    order: Vec<usize>,
    deps: Vec<Vec<usize>>,
}

impl Schedule {
    /// The event type.
    pub closed spec fn event(&self) -> u64 {
        self.event
    }

    /// The handlers, as indices into the list of systems, in running order.
    pub closed spec fn order(&self) -> Seq<usize> {
        self.order@
    }

    /// The handler at place `q` waits for the handler at place `p`.
    pub closed spec fn waits_for(&self, q: int, p: int) -> bool {
        0 <= q < self.deps@.len() && self.deps@[q]@.contains(p as usize) && 0 <= p <= usize::MAX
    }

    /// The schedule is one for `systems`: its order is a way to run the
    /// handlers of its event, and a handler waits for exactly the earlier
    /// handlers that it conflicts with.
    pub closed spec fn valid_for(&self, systems: Seq<System>) -> bool {
        &&& is_order(systems, self.event, self.order@)
        &&& self.deps@.len() == self.order@.len()
        &&& forall|q: int, p: int|
            0 <= q < self.order@.len() ==> (#[trigger] self.waits_for(q, p) <==> 0 <= p < q
                && clash(systems, self.order@[p], self.order@[q]))
    }

    /// Every handler has its list of handlers to wait for, and waits for
    /// earlier handlers only.
    pub closed spec fn wf(&self) -> bool {
        &&& self.deps@.len() == self.order@.len()
        &&& forall|q: int, p: int| #[trigger] self.waits_for(q, p) ==> 0 <= p < q < self.order@.len()
    }

    /// What `wf` says.
    pub proof fn lemma_wf(&self)
        requires
            self.wf(),
        ensures
            forall|q: int, p: int| #[trigger] self.waits_for(q, p) ==> 0 <= p < q < self.order().len(),
    {
    }

    /// What `valid_for` says.
    pub proof fn lemma_valid(&self, systems: Seq<System>)
        requires
            self.valid_for(systems),
        ensures
            self.wf(),
            is_order(systems, self.event(), self.order()),
            forall|q: int, p: int|
                0 <= q < self.order().len() ==> (#[trigger] self.waits_for(q, p) <==> 0 <= p < q
                    && clash(systems, self.order()[p], self.order()[q])),
    {
    }

    /// Two handlers that conflict never have the same place in a schedule,
    /// and the later one waits for the earlier one. So a system that is
    /// declared to run before another has finished when the other starts,
    /// and a system that writes a component never runs together with one
    /// that reads it.
    pub proof fn lemma_conflicting_handlers_wait(&self, systems: Seq<System>, p: int, q: int)
        requires
            self.valid_for(systems),
            0 <= p < self.order().len(),
            0 <= q < self.order().len(),
            p != q,
            clash(systems, self.order()[p], self.order()[q]),
        ensures
            p < q ==> self.waits_for(q, p),
            q < p ==> self.waits_for(p, q),
    {
        systems[self.order()[p] as int].lemma_conflict_symmetric(&systems[self.order()[q] as int]);
        if p < q {
            assert(self.waits_for(q, p));
        } else {
            assert(self.waits_for(p, q));
        }
    }

    /// A system that is declared to run before another one stands before it
    /// in the schedule, and the other one waits for it.
    pub proof fn lemma_declared_order_kept(&self, systems: Seq<System>, p: int, q: int)
        requires
            self.valid_for(systems),
            0 <= p < self.order().len(),
            0 <= q < self.order().len(),
            precedes(systems, self.order()[p], self.order()[q]),
        ensures
            p < q,
            self.waits_for(q, p),
    {
        if q <= p {
            assert(!precedes(systems, self.order()[p], self.order()[q]));
        }
        self.lemma_conflicting_handlers_wait(systems, p, q);
    }

    /// Two handlers that do not conflict do not wait for one another: they
    /// may run at the same time.
    pub proof fn lemma_independent_handlers_do_not_wait(&self, systems: Seq<System>, p: int, q: int)
        requires
            self.valid_for(systems),
            0 <= p < self.order().len(),
            0 <= q < self.order().len(),
            !clash(systems, self.order()[p], self.order()[q]),
        ensures
            !self.waits_for(q, p),
            !self.waits_for(p, q),
    {
        systems[self.order()[p] as int].lemma_conflict_symmetric(&systems[self.order()[q] as int]);
        assert(!self.waits_for(q, p));
        assert(!self.waits_for(p, q));
    }

    /// The event type.
    pub fn event_key(&self) -> (e: u64)
        ensures
            e == self.event(),
    {
        self.event
    }

    /// Number of handlers.
    pub fn len(&self) -> (n: usize)
        ensures
            n == self.order().len(),
    {
        self.order.len()
    }

    /// The system, as an index into the list of systems, at place `p`.
    pub fn system_at(&self, p: usize) -> (i: usize)
        requires
            p < self.order().len(),
        ensures
            i == self.order()[p as int],
    {
        self.order[p]
    }

    /// The places that the handler at place `q` waits for, ascending.
    pub fn dependencies(&self, q: usize) -> (d: &Vec<usize>)
        requires
            self.wf(),
            q < self.order().len(),
        ensures
            forall|p: int| d@.contains(p as usize) && 0 <= p <= usize::MAX <==> self.waits_for(q as int, p),
    {
        &self.deps[q]
    }

    /// The schedule of `event` for `systems`, or `None` if the orders that
    /// the handlers declare run in a circle.
    pub fn plan(systems: &Vec<System>, event: u64) -> (r: Option<Schedule>)
        ensures
            match r {
                Some(s) => s.valid_for(systems@) && s.wf() && s.event() == event,
                None => !schedulable(systems@, event),
            },
    {
        let h = handlers_of(systems, event);
        let n = h.len();
        let mut done: Vec<bool> = Vec::new();
        let mut a: usize = 0;
        while a < n
            invariant
                a <= n,
                done@.len() == a,
                forall|b: int| 0 <= b < a ==> !done@[b],
            decreases n - a,
        {
            done.push(false);
            a += 1;
        }
        proof {
            lemma_count_false_bounds(done@);
        }
        let mut order: Vec<usize> = Vec::new();
        while order.len() < n
            invariant
                n == h@.len(),
                lists_handlers(systems@, event, h@),
                partial(systems@, h@, done@, order@),
            decreases n - order@.len(),
        {
            proof {
                lemma_count_false_bounds(done@);
            }
            match find_free(systems, &h, &done) {
                None => {
                    proof {
                        lemma_stuck_means_circle(systems@, event, h@, done@);
                    }
                    return None;
                },
                Some(a) => {
                    proof {
                        lemma_place(systems@, h@, done@, order@, a as int);
                    }
                    let ghost before = done@;
                    done[a] = true;
                    order.push(h[a]);
                    assert(done@ =~= before.update(a as int, true));
                },
            }
        }
        proof {
            lemma_complete(systems@, event, h@, done@, order@);
        }
        let deps = waits(systems, &order);
        Some(Schedule { event, order, deps })
    }
}

/// The systems that handle `event`, as ascending indices into `systems`.
fn handlers_of(systems: &Vec<System>, event: u64) -> (h: Vec<usize>)
    ensures
        lists_handlers(systems@, event, h@),
{
    let mut h: Vec<usize> = Vec::new();
    let mut i: usize = 0;
    while i < systems.len()
        invariant
            i <= systems@.len(),
            forall|a: int| 0 <= a < h@.len() ==> (#[trigger] h@[a]) < i && handles_at(systems@, event, h@[a] as int),
            forall|a: int, b: int| 0 <= a < b < h@.len() ==> #[trigger] h@[a] < #[trigger] h@[b],
            forall|k: int|
                0 <= k < i && #[trigger] handles_at(systems@, event, k) ==> exists|a: int|
                    0 <= a < h@.len() && #[trigger] h@[a] == k,
        decreases systems@.len() - i,
    {
        if systems[i].handles(event) {
            let ghost before = h@;
            h.push(i);
            proof {
                assert forall|k: int| 0 <= k < i + 1 && #[trigger] handles_at(systems@, event, k) implies exists|a: int|
                    0 <= a < h@.len() && #[trigger] h@[a] == k by {
                    if k == i {
                        assert(h@[before.len() as int] == k);
                    } else {
                        let a = choose|a: int| 0 <= a < before.len() && #[trigger] before[a] == k;
                        assert(h@[a] == k);
                    }
                }
            }
        }
        i += 1;
    }
    h
}

/// Whether some handler that is not yet done has to run before the one at
/// place `a` of `h`.
fn blocked(systems: &Vec<System>, h: &Vec<usize>, done: &Vec<bool>, a: usize) -> (r: bool)
    requires
        h@.len() == done@.len(),
        a < h@.len(),
        forall|b: int| 0 <= b < h@.len() ==> (#[trigger] h@[b]) < systems@.len(),
    ensures
        r == blocked_at(systems@, h@, done@, a as int),
{
    let mut b: usize = 0;
    while b < h.len()
        invariant
            b <= h@.len(),
            h@.len() == done@.len(),
            a < h@.len(),
            forall|c: int| 0 <= c < h@.len() ==> (#[trigger] h@[c]) < systems@.len(),
            forall|c: int| 0 <= c < b ==> !(!done@[c] && #[trigger] precedes(systems@, h@[c], h@[a as int])),
        decreases h@.len() - b,
    {
        if !done[b] && systems[h[b]].runs_before(&systems[h[a]]) {
            assert(precedes(systems@, h@[b as int], h@[a as int]));
            return true;
        }
        b += 1;
    }
    false
}

/// The first handler that is not yet done and has to wait for none that is
/// not yet done, itself included.
fn find_free(systems: &Vec<System>, h: &Vec<usize>, done: &Vec<bool>) -> (r: Option<usize>)
    requires
        h@.len() == done@.len(),
        forall|b: int| 0 <= b < h@.len() ==> (#[trigger] h@[b]) < systems@.len(),
    ensures
        match r {
            Some(a) => free_at(systems@, h@, done@, a as int),
            None => forall|a: int|
                0 <= a < h@.len() && !#[trigger] done@[a] ==> blocked_at(systems@, h@, done@, a),
        },
{
    let mut a: usize = 0;
    while a < h.len()
        invariant
            a <= h@.len(),
            h@.len() == done@.len(),
            forall|b: int| 0 <= b < h@.len() ==> (#[trigger] h@[b]) < systems@.len(),
            forall|c: int| 0 <= c < a && !#[trigger] done@[c] ==> blocked_at(systems@, h@, done@, c),
        decreases h@.len() - a,
    {
        if !done[a] && !blocked(systems, h, done, a) {
            return Some(a);
        }
        a += 1;
    }
    None
}

/// For every place of `order`, the earlier places whose system conflicts
/// with the one that stands there.
fn waits(systems: &Vec<System>, order: &Vec<usize>) -> (deps: Vec<Vec<usize>>)
    requires
        forall|p: int| 0 <= p < order@.len() ==> (#[trigger] order@[p]) < systems@.len(),
    ensures
        deps@.len() == order@.len(),
        forall|q: int, p: int|
            0 <= q < order@.len() && 0 <= p <= usize::MAX ==> (#[trigger] deps@[q]@.contains(p as usize) <==> p < q
                && clash(systems@, order@[p], order@[q])),
{
    let mut deps: Vec<Vec<usize>> = Vec::new();
    let mut q: usize = 0;
    while q < order.len()
        invariant
            q <= order@.len(),
            deps@.len() == q,
            forall|p: int| 0 <= p < order@.len() ==> (#[trigger] order@[p]) < systems@.len(),
            forall|r: int, p: int|
                0 <= r < q && 0 <= p <= usize::MAX ==> (#[trigger] deps@[r]@.contains(p as usize) <==> p < r
                    && clash(systems@, order@[p], order@[r])),
        decreases order@.len() - q,
    {
        let mut d: Vec<usize> = Vec::new();
        let mut p: usize = 0;
        while p < q
            invariant
                p <= q,
                q < order@.len(),
                forall|k: int| 0 <= k < order@.len() ==> (#[trigger] order@[k]) < systems@.len(),
                forall|k: int|
                    0 <= k <= usize::MAX ==> (#[trigger] d@.contains(k as usize) <==> k < p
                        && clash(systems@, order@[k], order@[q as int])),
            decreases q - p,
        {
            if systems[order[p]].conflicts(&systems[order[q]]) {
                let ghost before = d@;
                d.push(p);
                proof {
                    assert forall|k: int| 0 <= k <= usize::MAX implies (#[trigger] d@.contains(k as usize) <==> k < p + 1
                        && clash(systems@, order@[k], order@[q as int])) by {
                        vstd::seq_lib::lemma_seq_contains_after_push(before, p, k as usize);
                    }
                }
            }
            p += 1;
        }
        let ghost before = deps@;
        deps.push(d);
        proof {
            assert forall|r: int, k: int|
                0 <= r < q + 1 && 0 <= k <= usize::MAX implies (#[trigger] deps@[r]@.contains(k as usize) <==> k < r
                && clash(systems@, order@[k], order@[r])) by {
                if r < q {
                    assert(deps@[r] == before[r]);
                }
            }
        }
        q += 1;
    }
    deps
}

} // verus!
