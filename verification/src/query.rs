//! Queries: which entities have the components and tags that are asked for.
//!
//! A query names the component types that it reads and writes and the tags
//! that an entity must and must not carry. It matches every stored entity
//! whose archetype has all those component types and whose tags fit. The
//! matches come in the order of the archetypes and, within an archetype, of
//! its rows.

use vstd::prelude::*;
use crate::archetype::{Archetypes, components_map};
use crate::entities::Entities;
use crate::entity::Entity;
use crate::tag::Tags;
use crate::type_set::TypeSet;

verus! {

/// One match of a query: an entity and the place of its row.
#[derive(Clone, Copy, Debug, PartialEq, Eq, Structural)]
pub struct Hit {
    /// The entity.
    pub entity: Entity,
    /// Index of the archetype that holds it.
    pub archetype: usize,
    /// Index of its row in that archetype.
    pub row: usize,
}

/// The place `(a1, r1)` comes before `(a2, r2)`: an earlier archetype, or
/// the same one and an earlier row.
pub open spec fn comes_before(a1: int, r1: int, a2: int, r2: int) -> bool {
    a1 < a2 || (a1 == a2 && r1 < r2)
}

/// Some match of `hits` is for row `r` of archetype `a`.
pub open spec fn listed(hits: Seq<Hit>, a: int, r: int) -> bool {
    exists|i: int| 0 <= i < hits.len() && (#[trigger] hits[i]).archetype == a && hits[i].row == r
}

/// Some match of `hits` is for the entity `e`.
pub open spec fn names(hits: Seq<Hit>, e: Entity) -> bool {
    exists|i: int| 0 <= i < hits.len() && (#[trigger] hits[i]).entity == e
}

/// The matches stand in the order of archetypes and rows.
pub open spec fn in_order(hits: Seq<Hit>) -> bool {
    forall|i: int, j: int|
        0 <= i < j < hits.len() ==> comes_before(
            (#[trigger] hits[i]).archetype as int,
            hits[i].row as int,
            (#[trigger] hits[j]).archetype as int,
            hits[j].row as int,
        )
}

/// Two lists of matches that stand in order and hold the same matches are
/// the same list.
pub proof fn lemma_ordered_hits_equal(a: Seq<Hit>, b: Seq<Hit>)
    requires
        in_order(a),
        in_order(b),
        forall|i: int| 0 <= i < a.len() ==> b.contains(#[trigger] a[i]),
        forall|j: int| 0 <= j < b.len() ==> a.contains(#[trigger] b[j]),
    ensures
        a == b,
    decreases a.len(),
{
    if a.len() == 0 {
        if b.len() > 0 {
            assert(a.contains(b[0]));
        }
        assert(a =~= b);
    } else {
        let la = a.last();
        assert(b.contains(a[a.len() - 1]));
        let j = choose|j: int| 0 <= j < b.len() && b[j] == la;
        let lb = b.last();
        assert(a.contains(b[b.len() - 1]));
        let i = choose|i: int| 0 <= i < a.len() && a[i] == lb;
        if j < b.len() - 1 {
            assert(comes_before(b[j].archetype as int, b[j].row as int, lb.archetype as int, lb.row as int));
            if i < a.len() - 1 {
                assert(comes_before(a[i].archetype as int, a[i].row as int, la.archetype as int, la.row as int));
            }
        }
        assert(la == lb);
        let a0 = a.drop_last();
        let b0 = b.drop_last();
        assert forall|k: int| 0 <= k < a0.len() implies b0.contains(#[trigger] a0[k]) by {
            assert(a0[k] == a[k]);
            assert(b.contains(a[k]));
            let m = choose|m: int| 0 <= m < b.len() && b[m] == a[k];
            assert(comes_before(a[k].archetype as int, a[k].row as int, la.archetype as int, la.row as int));
            assert(m != b.len() - 1);
            assert(b0[m] == a0[k]);
        }
        assert forall|k: int| 0 <= k < b0.len() implies a0.contains(#[trigger] b0[k]) by {
            assert(b0[k] == b[k]);
            assert(a.contains(b[k]));
            let m = choose|m: int| 0 <= m < a.len() && a[m] == b[k];
            assert(comes_before(b[k].archetype as int, b[k].row as int, lb.archetype as int, lb.row as int));
            assert(m != a.len() - 1);
            assert(a0[m] == b0[k]);
        }
        lemma_ordered_hits_equal(a0, b0);
        assert(a =~= a0.push(la));
        assert(b =~= b0.push(lb));
    }
}

/// What a query asks for.
pub struct Query {
    reads: TypeSet,
    writes: TypeSet,
    needed: TypeSet,
    with: TypeSet,
    without: TypeSet,
}

impl Query {
    /// The component types that the query reads.
    pub closed spec fn reads(&self) -> Set<u64> {
        self.reads@
    }

    /// The component types that the query writes.
    pub closed spec fn writes(&self) -> Set<u64> {
        self.writes@
    }

    /// The tags that a match carries.
    pub closed spec fn with(&self) -> Set<u64> {
        self.with@
    }

    /// The tags that a match does not carry.
    pub closed spec fn without(&self) -> Set<u64> {
        self.without@
    }

    /// The sets of the query are well formed.
    pub closed spec fn wf(&self) -> bool {
        &&& self.reads.wf()
        &&& self.writes.wf()
        &&& self.needed.wf()
        &&& self.with.wf()
        &&& self.without.wf()
        &&& self.needed@ == self.reads@ + self.writes@
    }

    /// The component types that a match has, ascending: the order in which
    /// `fetch` hands the components out.
    pub closed spec fn required_keys(&self) -> Seq<u64> {
        self.needed.keys()
    }

    /// `required_keys` lists the types that are read or written, each once.
    pub proof fn lemma_required_keys(&self)
        requires
            self.wf(),
        ensures
            self.required_keys().to_set() == self.required(),
            crate::type_set::ascending(self.required_keys()),
    {
        self.needed.lemma_keys_ascending();
    }

    /// The component types that a match has: those read and those written.
    pub open spec fn required(&self) -> Set<u64> {
        self.reads() + self.writes()
    }

    /// An archetype with the types `keys` has every component type that the
    /// query asks for.
    pub open spec fn fits_keys(&self, keys: Seq<u64>) -> bool {
        self.required().subset_of(keys.to_set())
    }

    /// `e` carries every tag that the query asks for and none that it bars.
    pub open spec fn fits_tags(&self, tags: &Tags, e: Entity) -> bool {
        &&& forall|t: u64| self.with().contains(t) ==> #[trigger] tags.has(e, t)
        &&& forall|t: u64| self.without().contains(t) ==> !#[trigger] tags.has(e, t)
    }

    /// Row `r` of archetype `a` is a match.
    pub open spec fn hit<C>(&self, archetypes: &Archetypes<C>, tags: &Tags, a: int, r: int) -> bool {
        &&& 0 <= a < archetypes@.len()
        &&& 0 <= r < archetypes@[a].entities().len()
        &&& self.fits_keys(archetypes@[a].keys())
        &&& self.fits_tags(tags, archetypes@[a].entities()[r])
    }

    /// `hits` is the answer of the query: every entry is a match and names
    /// the entity of its row, the entries stand in the order of archetypes
    /// and rows, and every match is among them.
    pub open spec fn answered_by<C>(&self, archetypes: &Archetypes<C>, tags: &Tags, hits: Seq<Hit>) -> bool {
        &&& forall|i: int|
            0 <= i < hits.len() ==> {
                &&& self.hit(archetypes, tags, (#[trigger] hits[i]).archetype as int, hits[i].row as int)
                &&& hits[i].entity == archetypes@[hits[i].archetype as int].entities()[hits[i].row as int]
            }
        &&& forall|i: int, j: int|
            0 <= i < j < hits.len() ==> comes_before(
                (#[trigger] hits[i]).archetype as int,
                hits[i].row as int,
                (#[trigger] hits[j]).archetype as int,
                hits[j].row as int,
            )
        &&& forall|a: int, r: int| #[trigger] self.hit(archetypes, tags, a, r) ==> listed(hits, a, r)
    }

    /// A query has one answer: what `answered_by` says of a list of matches
    /// fixes the list.
    pub proof fn lemma_answer_is_unique<C>(
        &self,
        archetypes: &Archetypes<C>,
        tags: &Tags,
        first: Seq<Hit>,
        second: Seq<Hit>,
    )
        requires
            self.answered_by(archetypes, tags, first),
            self.answered_by(archetypes, tags, second),
        ensures
            first == second,
    {
        assert forall|i: int| 0 <= i < first.len() implies second.contains(#[trigger] first[i]) by {
            let a = first[i].archetype as int;
            let r = first[i].row as int;
            assert(self.hit(archetypes, tags, a, r));
            assert(listed(second, a, r));
            let j = choose|j: int|
                0 <= j < second.len() && (#[trigger] second[j]).archetype == a && second[j].row == r;
            assert(second[j] == first[i]);
        }
        assert forall|j: int| 0 <= j < second.len() implies first.contains(#[trigger] second[j]) by {
            let a = second[j].archetype as int;
            let r = second[j].row as int;
            assert(self.hit(archetypes, tags, a, r));
            assert(listed(first, a, r));
            let i = choose|i: int|
                0 <= i < first.len() && (#[trigger] first[i]).archetype == a && first[i].row == r;
            assert(first[i] == second[j]);
        }
        lemma_ordered_hits_equal(first, second);
    }

    /// The query that asks for nothing: it matches every stored entity.
    pub fn new() -> (q: Query)
        ensures
            q.wf(),
            q.reads() == Set::<u64>::empty(),
            q.writes() == Set::<u64>::empty(),
            q.with() == Set::<u64>::empty(),
            q.without() == Set::<u64>::empty(),
    {
        let q = Query {
            reads: TypeSet::new(),
            writes: TypeSet::new(),
            needed: TypeSet::new(),
            with: TypeSet::new(),
            without: TypeSet::new(),
        };
        assert(q.needed@ =~= q.reads@ + q.writes@);
        q
    }

    /// The same query, which reads the component type `component` too.
    pub fn read(self, component: u64) -> (q: Query)
        requires
            self.wf(),
        ensures
            q.wf(),
            q.reads() == self.reads().insert(component),
            q.writes() == self.writes(),
            q.with() == self.with(),
            q.without() == self.without(),
    {
        let mut q = self;
        q.reads.insert(component);
        q.needed.insert(component);
        assert(q.needed@ =~= q.reads@ + q.writes@);
        q
    }

    /// The same query, which writes the component type `component` too.
    pub fn write(self, component: u64) -> (q: Query)
        requires
            self.wf(),
        ensures
            q.wf(),
            q.reads() == self.reads(),
            q.writes() == self.writes().insert(component),
            q.with() == self.with(),
            q.without() == self.without(),
    {
        let mut q = self;
        q.writes.insert(component);
        q.needed.insert(component);
        assert(q.needed@ =~= q.reads@ + q.writes@);
        q
    }

    /// The same query, whose matches carry the tag `tag` too.
    pub fn with_tag(self, tag: u64) -> (q: Query)
        requires
            self.wf(),
        ensures
            q.wf(),
            q.reads() == self.reads(),
            q.writes() == self.writes(),
            q.with() == self.with().insert(tag),
            q.without() == self.without(),
    {
        let mut q = self;
        q.with.insert(tag);
        q
    }

    /// The same query, whose matches do not carry the tag `tag` either.
    pub fn without_tag(self, tag: u64) -> (q: Query)
        requires
            self.wf(),
        ensures
            q.wf(),
            q.reads() == self.reads(),
            q.writes() == self.writes(),
            q.with() == self.with(),
            q.without() == self.without().insert(tag),
    {
        let mut q = self;
        q.without.insert(tag);
        q
    }

    /// Whether `e` carries every tag that the query asks for and none that
    /// it bars.
    pub fn tags_fit(&self, tags: &Tags, e: Entity) -> (r: bool)
        requires
            self.wf(),
            tags.wf(),
        ensures
            r == self.fits_tags(tags, e),
    {
        let mut i: usize = 0;
        while i < self.with.len()
            invariant
                i <= self.with.keys().len(),
                tags.wf(),
                forall|j: int| 0 <= j < i ==> tags.has(e, #[trigger] self.with.keys()[j]),
            decreases self.with.keys().len() - i,
        {
            let t = self.with.key(i);
            if !tags.has_tag(e, t) {
                assert(self.with.keys().contains(t));
                assert(self.with().contains(t));
                return false;
            }
            i += 1;
        }
        let mut i: usize = 0;
        while i < self.without.len()
            invariant
                i <= self.without.keys().len(),
                tags.wf(),
                forall|j: int| 0 <= j < i ==> !tags.has(e, #[trigger] self.without.keys()[j]),
            decreases self.without.keys().len() - i,
        {
            let t = self.without.key(i);
            if tags.has_tag(e, t) {
                assert(self.without.keys().contains(t));
                assert(self.without().contains(t));
                return false;
            }
            i += 1;
        }
        proof {
            assert forall|t: u64| self.with().contains(t) implies #[trigger] tags.has(e, t) by {
                let j = choose|j: int| 0 <= j < self.with.keys().len() && self.with.keys()[j] == t;
                assert(tags.has(e, self.with.keys()[j]));
            }
            assert forall|t: u64| self.without().contains(t) implies !#[trigger] tags.has(e, t) by {
                let j = choose|j: int| 0 <= j < self.without.keys().len() && self.without.keys()[j] == t;
                assert(!tags.has(e, self.without.keys()[j]));
            }
        }
        true
    }

    /// The matches of the query, in the order of the archetypes and of
    /// their rows.
    pub fn run<C>(&self, archetypes: &Archetypes<C>, tags: &Tags) -> (hits: Vec<Hit>)
        requires
            self.wf(),
            archetypes.wf(),
            tags.wf(),
        ensures
            self.answered_by(archetypes, tags, hits@),
    {
        let mut hits: Vec<Hit> = Vec::new();
        let mut a: usize = 0;
        while a < archetypes.len()
            invariant
                a <= archetypes@.len(),
                self.wf(),
                archetypes.wf(),
                tags.wf(),
                forall|i: int|
                    0 <= i < hits@.len() ==> {
                        &&& self.hit(archetypes, tags, (#[trigger] hits@[i]).archetype as int, hits@[i].row as int)
                        &&& hits@[i].entity == archetypes@[hits@[i].archetype as int].entities()[hits@[i].row as int]
                        &&& hits@[i].archetype < a
                    },
                forall|i: int, j: int|
                    0 <= i < j < hits@.len() ==> comes_before(
                        (#[trigger] hits@[i]).archetype as int,
                        hits@[i].row as int,
                        (#[trigger] hits@[j]).archetype as int,
                        hits@[j].row as int,
                    ),
                forall|b: int, r: int|
                    b < a && #[trigger] self.hit(archetypes, tags, b, r) ==> listed(hits@, b, r),
            decreases archetypes@.len() - a,
        {
            let table = archetypes.table(a);
            if self.needed.is_subset_of(table.type_set()) {
                let n = table.len();
                let mut r: usize = 0;
                while r < n
                    invariant
                        r <= n,
                        a < archetypes@.len(),
                        *table == archetypes@[a as int],
                        n == archetypes@[a as int].entities().len(),
                        self.fits_keys(archetypes@[a as int].keys()),
                        self.wf(),
                        tags.wf(),
                        forall|i: int|
                            0 <= i < hits@.len() ==> {
                                &&& self.hit(archetypes, tags, (#[trigger] hits@[i]).archetype as int, hits@[i].row as int)
                                &&& hits@[i].entity == archetypes@[hits@[i].archetype as int].entities()[hits@[i].row as int]
                                &&& comes_before(hits@[i].archetype as int, hits@[i].row as int, a as int, r as int)
                            },
                        forall|i: int, j: int|
                            0 <= i < j < hits@.len() ==> comes_before(
                                (#[trigger] hits@[i]).archetype as int,
                                hits@[i].row as int,
                                (#[trigger] hits@[j]).archetype as int,
                                hits@[j].row as int,
                            ),
                        forall|b: int, q: int|
                            comes_before(b, q, a as int, r as int) && #[trigger] self.hit(archetypes, tags, b, q)
                                ==> listed(hits@, b, q),
                    decreases n - r,
                {
                    let e = table.entity_at(r);
                    if self.tags_fit(tags, e) {
                        let ghost before = hits@;
                        hits.push(Hit { entity: e, archetype: a, row: r });
                        proof {
                            let last = before.len() as int;
                            assert(hits@[last].archetype == a && hits@[last].row == r);
                            assert forall|b: int, q: int|
                                comes_before(b, q, a as int, r + 1) && #[trigger] self.hit(archetypes, tags, b, q)
                                implies listed(hits@, b, q) by {
                                if b == a && q == r {
                                    assert(hits@[last].archetype == b && hits@[last].row == q);
                                } else {
                                    assert(listed(before, b, q));
                                    let i = choose|i: int|
                                        0 <= i < before.len() && (#[trigger] before[i]).archetype == b
                                            && before[i].row == q;
                                    assert(hits@[i] == before[i]);
                                }
                            }
                            assert forall|i: int, j: int| 0 <= i < j < hits@.len() implies comes_before(
                                (#[trigger] hits@[i]).archetype as int,
                                hits@[i].row as int,
                                (#[trigger] hits@[j]).archetype as int,
                                hits@[j].row as int,
                            ) by {
                                assert(hits@[i] == before[i]);
                                if j < last {
                                    assert(hits@[j] == before[j]);
                                }
                            }
                            assert forall|i: int| 0 <= i < hits@.len() implies {
                                &&& self.hit(archetypes, tags, (#[trigger] hits@[i]).archetype as int, hits@[i].row as int)
                                &&& hits@[i].entity == archetypes@[hits@[i].archetype as int].entities()[hits@[i].row as int]
                                &&& comes_before(hits@[i].archetype as int, hits@[i].row as int, a as int, r + 1)
                            } by {
                                if i < last {
                                    assert(hits@[i] == before[i]);
                                }
                            }
                        }
                    }
                    r += 1;
                }
                proof {
                    assert forall|b: int, q: int|
                        b < a + 1 && #[trigger] self.hit(archetypes, tags, b, q) implies listed(hits@, b, q) by {
                        assert(comes_before(b, q, a as int, n as int));
                    }
                }
            } else {
                proof {
                    assert(self.needed@ == self.required());
                }
            }
            a += 1;
        }
        hits
    }

    /// The components of a row that the query asks for, one for each type
    /// that it reads or writes, in the ascending order of the type keys.
    pub fn fetch<'a, C>(&self, archetypes: &'a Archetypes<C>, archetype: usize, row: usize) -> (out: Vec<&'a C>)
        requires
            self.wf(),
            archetypes.wf(),
            archetype < archetypes@.len(),
            row < archetypes@[archetype as int].entities().len(),
            self.fits_keys(archetypes@[archetype as int].keys()),
        ensures
            out@.len() == self.required_keys().len(),
            forall|i: int|
                0 <= i < out@.len() ==> *(#[trigger] out@[i]) == components_map(
                    archetypes@[archetype as int].keys(),
                    archetypes@[archetype as int].row(row as int),
                )[self.required_keys()[i]],
    {
        let table = archetypes.table(archetype);
        let mut out: Vec<&'a C> = Vec::new();
        let mut i: usize = 0;
        while i < self.needed.len()
            invariant
                i <= self.needed.keys().len(),
                out@.len() == i,
                self.wf(),
                archetypes.wf(),
                archetype < archetypes@.len(),
                *table == archetypes@[archetype as int],
                row < archetypes@[archetype as int].entities().len(),
                self.fits_keys(archetypes@[archetype as int].keys()),
                forall|j: int|
                    0 <= j < i ==> *(#[trigger] out@[j]) == components_map(
                        archetypes@[archetype as int].keys(),
                        archetypes@[archetype as int].row(row as int),
                    )[self.needed.keys()[j]],
            decreases self.needed.keys().len() - i,
        {
            let key = self.needed.key(i);
            proof {
                assert(self.needed.keys().contains(key));
                assert(self.required().contains(key));
                assert(archetypes@[archetype as int].keys().to_set().contains(key));
                assert(archetypes@[archetype as int].wf());
            }
            let found = table.get(row, key);
            out.push(found.unwrap());
            i += 1;
        }
        out
    }

    /// The match of `e`, if `e` is stored and matches the query.
    pub fn get<C>(&self, entities: &Entities, archetypes: &Archetypes<C>, tags: &Tags, e: Entity) -> (r: Option<Hit>)
        requires
            self.wf(),
            entities.wf(),
            archetypes.wf(),
            tags.wf(),
            entities.consistent(archetypes),
        ensures
            match r {
                Some(h) => {
                    &&& entities.placed(e)
                    &&& h.entity == e
                    &&& h.archetype == entities@[e.id as int].archetype
                    &&& h.row == entities@[e.id as int].row
                    &&& self.hit(archetypes, tags, h.archetype as int, h.row as int)
                },
                None => !(entities.placed(e) && self.hit(
                    archetypes,
                    tags,
                    entities@[e.id as int].archetype as int,
                    entities@[e.id as int].row as int,
                )),
            },
    {
        match entities.location(e) {
            None => None,
            Some((a, row)) => {
                assert(archetypes@[a as int].entities()[row as int] == e);
                if self.needed.is_subset_of(archetypes.table(a).type_set()) && self.tags_fit(tags, e) {
                    Some(Hit { entity: e, archetype: a, row })
                } else {
                    None
                }
            },
        }
    }
}

} // verus!
