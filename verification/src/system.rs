//! What a system declares: the events it handles, the data it reads and
//! writes, and the systems it has to run before or after.
//!
//! The declaration is all that the scheduler knows of a system. Two systems
//! that handle the same event may run at the same time unless their
//! declarations conflict.

use vstd::prelude::*;
use crate::type_set::{TypeSet, overlap};

verus! {

/// The declaration of one system.
pub struct System {
    id: u64,
    handles: TypeSet,
    reads: TypeSet,
    writes: TypeSet,
    res_reads: TypeSet,
    res_writes: TypeSet,
    before: TypeSet,
    after: TypeSet,
}

impl System {
    /// The key that names the system.
    pub closed spec fn id(&self) -> u64 {
        self.id
    }

    /// The event types that the system handles.
    pub closed spec fn handled(&self) -> Set<u64> {
        self.handles@
    }

    /// The component types that the system reads.
    pub closed spec fn reads(&self) -> Set<u64> {
        self.reads@
    }

    /// The component types that the system writes.
    pub closed spec fn writes(&self) -> Set<u64> {
        self.writes@
    }

    /// The resource types that the system reads.
    pub closed spec fn resource_reads(&self) -> Set<u64> {
        self.res_reads@
    }

    /// The resource types that the system writes.
    pub closed spec fn resource_writes(&self) -> Set<u64> {
        self.res_writes@
    }

    /// The systems that this one has to run before.
    pub closed spec fn before(&self) -> Set<u64> {
        self.before@
    }

    /// The systems that this one has to run after.
    pub closed spec fn after(&self) -> Set<u64> {
        self.after@
    }

    /// The sets of the declaration are well formed.
    pub closed spec fn wf(&self) -> bool {
        &&& self.handles.wf()
        &&& self.reads.wf()
        &&& self.writes.wf()
        &&& self.res_reads.wf()
        &&& self.res_writes.wf()
        &&& self.before.wf()
        &&& self.after.wf()
    }

    /// The two systems touch the same component or resource type, and one
    /// of them at least writes it.
    pub open spec fn access_conflict(&self, other: &System) -> bool {
        ||| overlap(self.writes(), other.writes())
        ||| overlap(self.writes(), other.reads())
        ||| overlap(self.reads(), other.writes())
        ||| overlap(self.resource_writes(), other.resource_writes())
        ||| overlap(self.resource_writes(), other.resource_reads())
        ||| overlap(self.resource_reads(), other.resource_writes())
    }

    /// This system is declared to run before `other`, by either of them.
    pub open spec fn ordered_before(&self, other: &System) -> bool {
        self.before().contains(other.id()) || other.after().contains(self.id())
    }

    /// The two systems may not run at the same time: their accesses
    /// conflict, or an order between them is declared.
    pub open spec fn conflicts_with(&self, other: &System) -> bool {
        ||| self.access_conflict(other)
        ||| self.ordered_before(other)
        ||| other.ordered_before(self)
    }

    /// To conflict is mutual.
    pub proof fn lemma_conflict_symmetric(&self, other: &System)
        ensures
            self.conflicts_with(other) == other.conflicts_with(self),
    {
        assert(forall|a: Set<u64>, b: Set<u64>| overlap(a, b) == overlap(b, a));
    }

    /// Two systems that touch no common type and declare no order between
    /// them do not conflict.
    pub proof fn lemma_disjoint_systems_do_not_conflict(&self, other: &System)
        requires
            (self.reads() + self.writes()).disjoint(other.reads() + other.writes()),
            (self.resource_reads() + self.resource_writes()).disjoint(
                other.resource_reads() + other.resource_writes(),
            ),
            !self.ordered_before(other),
            !other.ordered_before(self),
        ensures
            !self.conflicts_with(other),
    {
        assert forall|a: Set<u64>, b: Set<u64>, c: Set<u64>, d: Set<u64>|
            (a + b).disjoint(c + d) implies !overlap(a, c) && !overlap(a, d) && !overlap(b, c)
            && !overlap(b, d) by {
            assert forall|k: u64| !((a + b).contains(k) && (c + d).contains(k)) by {}
            if overlap(a, c) {
                let k = choose|k: u64| a.contains(k) && c.contains(k);
                assert((a + b).contains(k) && (c + d).contains(k));
            }
            if overlap(a, d) {
                let k = choose|k: u64| a.contains(k) && d.contains(k);
                assert((a + b).contains(k) && (c + d).contains(k));
            }
            if overlap(b, c) {
                let k = choose|k: u64| b.contains(k) && c.contains(k);
                assert((a + b).contains(k) && (c + d).contains(k));
            }
            if overlap(b, d) {
                let k = choose|k: u64| b.contains(k) && d.contains(k);
                assert((a + b).contains(k) && (c + d).contains(k));
            }
        }
    }

    /// A system that writes a component type conflicts with every system
    /// that reads or writes it.
    pub proof fn lemma_writer_conflicts(&self, other: &System, component: u64)
        requires
            self.writes().contains(component),
            other.reads().contains(component) || other.writes().contains(component),
        ensures
            self.conflicts_with(other),
            other.conflicts_with(self),
    {
        self.lemma_conflict_symmetric(other);
    }

    /// The declaration of the system named `id`, which handles no event and
    /// touches no data yet.
    pub fn new(id: u64) -> (s: System)
        ensures
            s.wf(),
            s.id() == id,
            s.handled() == Set::<u64>::empty(),
            s.reads() == Set::<u64>::empty(),
            s.writes() == Set::<u64>::empty(),
            s.resource_reads() == Set::<u64>::empty(),
            s.resource_writes() == Set::<u64>::empty(),
            s.before() == Set::<u64>::empty(),
            s.after() == Set::<u64>::empty(),
    {
        System {
            id,
            handles: TypeSet::new(),
            reads: TypeSet::new(),
            writes: TypeSet::new(),
            res_reads: TypeSet::new(),
            res_writes: TypeSet::new(),
            before: TypeSet::new(),
            after: TypeSet::new(),
        }
    }

    /// The key that names the system.
    pub fn key(&self) -> (id: u64)
        ensures
            id == self.id(),
    {
        self.id
    }

    /// The event types that the system handles.
    pub fn handled_events(&self) -> (t: &TypeSet)
        ensures
            t@ == self.handled(),
            self.wf() ==> t.wf(),
    {
        &self.handles
    }

    /// Whether the system handles the event type `event`.
    pub fn handles(&self, event: u64) -> (r: bool)
        ensures
            r == self.handled().contains(event),
    {
        self.handles.contains(event)
    }

    /// Whether this system is declared to run before `other`.
    pub fn runs_before(&self, other: &System) -> (r: bool)
        ensures
            r == self.ordered_before(other),
    {
        self.before.contains(other.id) || other.after.contains(self.id)
    }

    /// Whether the two systems may not run at the same time.
    pub fn conflicts(&self, other: &System) -> (r: bool)
        ensures
            r == self.conflicts_with(other),
    {
        self.writes.intersects(&other.writes) || self.writes.intersects(&other.reads)
            || self.reads.intersects(&other.writes) || self.res_writes.intersects(
            &other.res_writes,
        ) || self.res_writes.intersects(&other.res_reads) || self.res_reads.intersects(
            &other.res_writes,
        ) || self.runs_before(other) || other.runs_before(self)
    }

    /// The same declaration, with the event type `event` handled too.
    pub fn with_handler(self, event: u64) -> (s: System)
        requires
            self.wf(),
        ensures
            s.wf(),
            s.handled() == self.handled().insert(event),
            s.same_but_handled(&self),
    {
        let mut s = self;
        s.handles.insert(event);
        s
    }

    /// The same declaration, with the component type `component` read too.
    pub fn with_read(self, component: u64) -> (s: System)
        requires
            self.wf(),
        ensures
            s.wf(),
            s.reads() == self.reads().insert(component),
            s.same_but_reads(&self),
    {
        let mut s = self;
        s.reads.insert(component);
        s
    }

    /// The same declaration, with the component type `component` written too.
    pub fn with_write(self, component: u64) -> (s: System)
        requires
            self.wf(),
        ensures
            s.wf(),
            s.writes() == self.writes().insert(component),
            s.same_but_writes(&self),
    {
        let mut s = self;
        s.writes.insert(component);
        s
    }

    /// The same declaration, with the resource type `resource` read too.
    pub fn with_resource_read(self, resource: u64) -> (s: System)
        requires
            self.wf(),
        ensures
            s.wf(),
            s.resource_reads() == self.resource_reads().insert(resource),
            s.same_but_resource_reads(&self),
    {
        let mut s = self;
        s.res_reads.insert(resource);
        s
    }

    /// The same declaration, with the resource type `resource` written too.
    pub fn with_resource_write(self, resource: u64) -> (s: System)
        requires
            self.wf(),
        ensures
            s.wf(),
            s.resource_writes() == self.resource_writes().insert(resource),
            s.same_but_resource_writes(&self),
    {
        let mut s = self;
        s.res_writes.insert(resource);
        s
    }

    /// The same declaration, which has to run before the system named `other` too.
    pub fn run_before(self, other: u64) -> (s: System)
        requires
            self.wf(),
        ensures
            s.wf(),
            s.before() == self.before().insert(other),
            s.same_but_before(&self),
    {
        let mut s = self;
        s.before.insert(other);
        s
    }

    /// The same declaration, which has to run after the system named `other` too.
    pub fn run_after(self, other: u64) -> (s: System)
        requires
            self.wf(),
        ensures
            s.wf(),
            s.after() == self.after().insert(other),
            s.same_but_after(&self),
    {
        let mut s = self;
        s.after.insert(other);
        s
    }

    /// The two declarations differ in the handled events at most.
    pub open spec fn same_but_handled(&self, o: &System) -> bool {
        &&& self.id() == o.id()
        &&& self.reads() == o.reads()
        &&& self.writes() == o.writes()
        &&& self.resource_reads() == o.resource_reads()
        &&& self.resource_writes() == o.resource_writes()
        &&& self.before() == o.before()
        &&& self.after() == o.after()
    }

    /// The two declarations differ in the components read at most.
    pub open spec fn same_but_reads(&self, o: &System) -> bool {
        &&& self.id() == o.id()
        &&& self.handled() == o.handled()
        &&& self.writes() == o.writes()
        &&& self.resource_reads() == o.resource_reads()
        &&& self.resource_writes() == o.resource_writes()
        &&& self.before() == o.before()
        &&& self.after() == o.after()
    }

    /// The two declarations differ in the components written at most.
    pub open spec fn same_but_writes(&self, o: &System) -> bool {
        &&& self.id() == o.id()
        &&& self.handled() == o.handled()
        &&& self.reads() == o.reads()
        &&& self.resource_reads() == o.resource_reads()
        &&& self.resource_writes() == o.resource_writes()
        &&& self.before() == o.before()
        &&& self.after() == o.after()
    }

    /// The two declarations differ in the resources read at most.
    pub open spec fn same_but_resource_reads(&self, o: &System) -> bool {
        &&& self.id() == o.id()
        &&& self.handled() == o.handled()
        &&& self.reads() == o.reads()
        &&& self.writes() == o.writes()
        &&& self.resource_writes() == o.resource_writes()
        &&& self.before() == o.before()
        &&& self.after() == o.after()
    }

    /// The two declarations differ in the resources written at most.
    pub open spec fn same_but_resource_writes(&self, o: &System) -> bool {
        &&& self.id() == o.id()
        &&& self.handled() == o.handled()
        &&& self.reads() == o.reads()
        &&& self.writes() == o.writes()
        &&& self.resource_reads() == o.resource_reads()
        &&& self.before() == o.before()
        &&& self.after() == o.after()
    }

    /// The two declarations differ in the systems to run before at most.
    pub open spec fn same_but_before(&self, o: &System) -> bool {
        &&& self.id() == o.id()
        &&& self.handled() == o.handled()
        &&& self.reads() == o.reads()
        &&& self.writes() == o.writes()
        &&& self.resource_reads() == o.resource_reads()
        &&& self.resource_writes() == o.resource_writes()
        &&& self.after() == o.after()
    }

    /// The two declarations differ in the systems to run after at most.
    pub open spec fn same_but_after(&self, o: &System) -> bool {
        &&& self.id() == o.id()
        &&& self.handled() == o.handled()
        &&& self.reads() == o.reads()
        &&& self.writes() == o.writes()
        &&& self.resource_reads() == o.resource_reads()
        &&& self.resource_writes() == o.resource_writes()
        &&& self.before() == o.before()
    }
}

} // verus!
