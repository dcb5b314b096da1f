//! Archetype storage: one table per set of component types.
//!
//! An archetype holds every entity whose components are exactly of the types
//! in its type set. It keeps one column per type, in the ascending order of
//! the type keys, and a column of the entities themselves. Row `r` of every
//! column belongs to the entity in row `r`.

use vstd::prelude::*;
use crate::entity::Entity;
use crate::type_set::TypeSet;

verus! {

/// `s` after a swap-remove at `i`: the last element takes the place of the
/// `i`-th, and the sequence is one shorter.
pub open spec fn swap_removed<T>(s: Seq<T>, i: int) -> Seq<T> {
    s.update(i, s.last()).drop_last()
}

/// One table: the entities with exactly the component types `keys()`.
pub struct Archetype<C> {
    types: TypeSet,
    columns: Vec<Vec<C>>,
    entities: Vec<Entity>,
}

impl<C> Archetype<C> {
    /// The component types, ascending. Column `i` holds the type `keys()[i]`.
    pub closed spec fn keys(&self) -> Seq<u64> {
        self.types.keys()
    }

    /// The entity of each row.
    pub closed spec fn entities(&self) -> Seq<Entity> {
        self.entities@
    }

    /// The columns: `columns()[i][r]` is the component of type `keys()[i]` in row `r`.
    pub closed spec fn columns(&self) -> Seq<Seq<C>> {
        Seq::new(self.columns@.len(), |i: int| self.columns@[i]@)
    }

    /// There is one column per type, and every column has one element per row.
    pub closed spec fn wf(&self) -> bool {
        &&& self.types.wf()
        &&& self.columns@.len() == self.types.keys().len()
        &&& forall|i: int| 0 <= i < self.columns@.len() ==> (#[trigger] self.columns@[i])@.len() == self.entities@.len()
    }

    /// The components of row `r`, in the order of `keys()`.
    pub open spec fn row(&self, r: int) -> Seq<C> {
        Seq::new(self.keys().len(), |i: int| self.columns()[i][r])
    }

    /// This table is `before` with one more row: `e` with the components `values`.
    pub open spec fn is_push_of(&self, before: Archetype<C>, e: Entity, values: Seq<C>) -> bool {
        &&& self.keys() == before.keys()
        &&& self.entities() == before.entities().push(e)
        &&& self.columns().len() == before.columns().len()
        &&& forall|i: int|
            0 <= i < before.columns().len() ==> #[trigger] self.columns()[i]
                == before.columns()[i].push(values[i])
    }

    /// This table is `before` after a swap-remove of row `r` in every column.
    pub open spec fn is_take_of(&self, before: Archetype<C>, r: int) -> bool {
        &&& self.keys() == before.keys()
        &&& self.entities() == swap_removed(before.entities(), r)
        &&& self.columns().len() == before.columns().len()
        &&& forall|i: int|
            0 <= i < before.columns().len() ==> #[trigger] self.columns()[i] == swap_removed(
                before.columns()[i],
                r,
            )
    }

    /// What `wf` says, over the public model.
    pub proof fn lemma_wf(&self)
        requires
            self.wf(),
        ensures
            crate::type_set::ascending(self.keys()),
            self.columns().len() == self.keys().len(),
            forall|i: int| 0 <= i < self.columns().len() ==> (#[trigger] self.columns()[i]).len() == self.entities().len(),
    {
        self.types.lemma_keys_ascending();
    }

    /// Where the rows of a table are after a swap-remove of row `r`: the
    /// last row stands in place `r`, and every other row where it stood.
    pub proof fn lemma_rows_after_take(&self, before: Archetype<C>, r: int, q: int)
        requires
            before.wf(),
            self.is_take_of(before, r),
            0 <= r < before.entities().len(),
            0 <= q < before.entities().len() - 1,
        ensures
            self.row(q) == before.row(
                if q == r {
                    before.entities().len() - 1
                } else {
                    q
                },
            ),
    {
        before.lemma_wf();
        let p = if q == r {
            before.entities().len() - 1
        } else {
            q
        };
        assert forall|i: int| 0 <= i < self.keys().len() implies self.columns()[i][q]
            == before.columns()[i][p] by {
            assert(self.columns()[i] == swap_removed(before.columns()[i], r));
            assert(before.columns()[i].len() == before.entities().len());
        }
        assert(self.row(q) =~= before.row(p));
    }

    /// Where the rows of a table are after a row was appended: the new row
    /// is the last one, and every other row is where it stood.
    pub proof fn lemma_rows_after_push(
        &self,
        before: Archetype<C>,
        e: Entity,
        values: Seq<C>,
        q: int,
    )
        requires
            before.wf(),
            self.is_push_of(before, e, values),
            values.len() == before.keys().len(),
            0 <= q <= before.entities().len(),
        ensures
            self.row(q) == (if q < before.entities().len() {
                before.row(q)
            } else {
                values
            }),
    {
        before.lemma_wf();
        assert forall|i: int| 0 <= i < self.keys().len() implies self.columns()[i][q] == (if q
            < before.entities().len() {
            before.columns()[i][q]
        } else {
            values[i]
        }) by {
            assert(self.columns()[i] == before.columns()[i].push(values[i]));
            assert(before.columns()[i].len() == before.entities().len());
        }
        if q < before.entities().len() {
            assert(self.row(q) =~= before.row(q));
        } else {
            assert(self.row(q) =~= values);
        }
    }

    /// An empty table for the given types.
    pub fn new(types: TypeSet) -> (a: Archetype<C>)
        requires
            types.wf(),
        ensures
            a.wf(),
            a.keys() == types.keys(),
            a.entities().len() == 0,
    {
        let mut columns: Vec<Vec<C>> = Vec::new();
        let n = types.len();
        let mut i: usize = 0;
        while i < n
            invariant
                i <= n,
                columns@.len() == i,
                forall|j: int| 0 <= j < i ==> (#[trigger] columns@[j])@.len() == 0,
            decreases n - i,
        {
            columns.push(Vec::new());
            i += 1;
        }
        Archetype { types, columns, entities: Vec::new() }
    }

    /// Number of rows.
    pub fn len(&self) -> (n: usize)
        ensures
            n == self.entities().len(),
    {
        self.entities.len()
    }

    /// The component types.
    pub fn type_set(&self) -> (t: &TypeSet)
        ensures
            t.keys() == self.keys(),
            self.wf() ==> t.wf(),
    {
        &self.types
    }

    /// The entity in row `r`.
    pub fn entity_at(&self, r: usize) -> (e: Entity)
        requires
            r < self.entities().len(),
        ensures
            e == self.entities()[r as int],
    {
        self.entities[r]
    }

    /// The component in column `i` of row `r`.
    pub fn component(&self, r: usize, i: usize) -> (c: &C)
        requires
            self.wf(),
            i < self.keys().len(),
            r < self.entities().len(),
        ensures
            *c == self.columns()[i as int][r as int],
    {
        &self.columns[i][r]
    }

    /// The component of type `key` in row `r`, if the archetype has that type.
    pub fn get(&self, r: usize, key: u64) -> (c: Option<&C>)
        requires
            self.wf(),
            r < self.entities().len(),
        ensures
            match c {
                Some(c) => self.keys().contains(key) && *c == components_map(
                    self.keys(),
                    self.row(r as int),
                )[key],
                None => !self.keys().contains(key),
            },
    {
        match self.types.position(key) {
            Some(i) => {
                let c = &self.columns[i][r];
                proof {
                    self.types.lemma_keys_ascending();
                    let keys = self.keys();
                    assert(keys[i as int] == key);
                    let j = keys.index_of(key);
                    assert(0 <= j < keys.len() && keys[j] == key);
                    if i < j {
                        assert(keys[i as int] < keys[j]);
                    } else if j < i {
                        assert(keys[j] < keys[i as int]);
                    }
                    assert(*c == self.row(r as int)[j]);
                }
                Some(c)
            },
            None => None,
        }
    }

    /// Appends a row for `e` with the given components, one per type in the
    /// order of `keys()`. Returns the index of the new row.
    pub fn push_row(&mut self, e: Entity, values: Vec<C>) -> (r: usize)
        requires
            old(self).wf(),
            values@.len() == old(self).keys().len(),
        ensures
            final(self).wf(),
            r == old(self).entities().len(),
            final(self).is_push_of(*old(self), e, values@),
    {
        let mut values = values;
        let ghost all = values@;
        let r = self.entities.len();
        let n = self.columns.len();
        let mut i: usize = n;
        while i > 0
            invariant
                i <= n,
                n == self.columns@.len(),
                n == all.len(),
                values@ == all.take(i as int),
                self.types == old(self).types,
                self.entities == old(self).entities,
                forall|j: int| 0 <= j < i ==> #[trigger] self.columns@[j] == old(self).columns@[j],
                forall|j: int| i <= j < n ==> (#[trigger] self.columns@[j])@ == old(self).columns@[j]@.push(all[j]),
            decreases i,
        {
            i -= 1;
            let v = values.pop().unwrap();
            self.columns[i].push(v);
            assert(values@ == all.take(i as int));
        }
        self.entities.push(e);
        assert forall|i: int| 0 <= i < old(self).columns().len() implies #[trigger] self.columns()[i] == old(self).columns()[i].push(all[i]) by {
            assert(self.columns@[i]@ == old(self).columns@[i]@.push(all[i]));
        }
        r
    }

    /// Takes row `r` out by swap-remove: the last row takes its place.
    /// Returns the components of the row, in the order of `keys()`, and the
    /// entity that now stands in row `r`, if a row was moved there.
    pub fn take_row(&mut self, r: usize) -> (out: (Vec<C>, Option<Entity>))
        requires
            old(self).wf(),
            r < old(self).entities().len(),
        ensures
            final(self).wf(),
            out.0@ == old(self).row(r as int),
            final(self).is_take_of(*old(self), r as int),
            out.1 == (if r + 1 == old(self).entities().len() {
                None
            } else {
                Some(old(self).entities().last())
            }),
    {
        let n = self.columns.len();
        let mut values: Vec<C> = Vec::new();
        let mut i: usize = 0;
        while i < n
            invariant
                i <= n,
                n == self.columns@.len(),
                n == old(self).columns@.len(),
                old(self).wf(),
                r < old(self).entities@.len(),
                self.types == old(self).types,
                self.entities == old(self).entities,
                values@.len() == i,
                forall|j: int| 0 <= j < i ==> #[trigger] values@[j] == old(self).columns@[j]@[r as int],
                forall|j: int| 0 <= j < i ==> (#[trigger] self.columns@[j])@ == swap_removed(old(self).columns@[j]@, r as int),
                forall|j: int| i <= j < n ==> #[trigger] self.columns@[j] == old(self).columns@[j],
            decreases n - i,
        {
            assert(self.columns@[i as int] == old(self).columns@[i as int]);
            let v = self.columns[i].swap_remove(r);
            values.push(v);
            i += 1;
        }
        let last = self.entities.len() - 1;
        self.entities.swap_remove(r);
        let moved = if r == last {
            None
        } else {
            Some(self.entities[r])
        };
        proof {
            assert(values@ =~= old(self).row(r as int));
            assert forall|i: int| 0 <= i < old(self).columns().len() implies #[trigger] self.columns()[i] == swap_removed(old(self).columns()[i], r as int) by {
                assert(self.columns@[i]@ == swap_removed(old(self).columns@[i]@, r as int));
            }
        }
        (values, moved)
    }

    /// Puts `value` in column `i` of row `r` and returns what stood there.
    pub fn replace(&mut self, r: usize, i: usize, value: C) -> (was: C)
        requires
            old(self).wf(),
            i < old(self).keys().len(),
            r < old(self).entities().len(),
        ensures
            final(self).wf(),
            final(self).keys() == old(self).keys(),
            final(self).entities() == old(self).entities(),
            was == old(self).columns()[i as int][r as int],
            final(self).columns() == old(self).columns().update(i as int, old(self).columns()[i as int].update(r as int, value)),
    {
        self.columns[i].push(value);
        let was = self.columns[i].swap_remove(r);
        proof {
            assert(self.columns@[i as int]@ =~= old(self).columns@[i as int]@.update(r as int, value));
            assert(forall|j: int| 0 <= j < self.columns@.len() && j != i ==> self.columns@[j] == old(self).columns@[j]);
            assert(self.columns() =~= old(self).columns().update(i as int, old(self).columns()[i as int].update(r as int, value)));
        }
        was
    }
}

/// The row that an entity has after a migration, in the order of `to_keys`:
/// a component of a type in `added_keys` comes from `added`, every other one
/// from the row `from_row` that the entity had before.
pub open spec fn migrated_row<C>(
    to_keys: Seq<u64>,
    from_keys: Seq<u64>,
    from_row: Seq<C>,
    added_keys: Seq<u64>,
    added: Seq<C>,
) -> Seq<C> {
    Seq::new(
        to_keys.len(),
        |i: int|
            if added_keys.contains(to_keys[i]) {
                added[added_keys.index_of(to_keys[i])]
            } else {
                from_row[from_keys.index_of(to_keys[i])]
            },
    )
}

/// The components of an entity as a map from type key to value, given the
/// types of its archetype and its row.
pub open spec fn components_map<C>(keys: Seq<u64>, row: Seq<C>) -> Map<u64, C> {
    Map::new(|k: u64| keys.contains(k), |k: u64| row[keys.index_of(k)])
}

/// The types of a migration fit together: what is added is new to the
/// source and part of the target, and the target has nothing else that the
/// source lacks.
pub open spec fn migration_fits(to_keys: Seq<u64>, from_keys: Seq<u64>, added_keys: Seq<u64>) -> bool {
    &&& forall|k: u64| added_keys.contains(k) ==> to_keys.contains(k) && !from_keys.contains(k)
    &&& forall|k: u64| to_keys.contains(k) ==> from_keys.contains(k) || added_keys.contains(k)
}

/// The components of a migrated entity: those of the added types come from
/// `added`, all others are the ones it had.
pub proof fn lemma_migrated_components<C>(
    to_keys: Seq<u64>,
    from_keys: Seq<u64>,
    from_row: Seq<C>,
    added_keys: Seq<u64>,
    added: Seq<C>,
)
    ensures
        components_map(to_keys, migrated_row(to_keys, from_keys, from_row, added_keys, added))
            == Map::new(
            |k: u64| to_keys.contains(k),
            |k: u64|
                if added_keys.contains(k) {
                    added[added_keys.index_of(k)]
                } else {
                    from_row[from_keys.index_of(k)]
                },
        ),
{
    let row = migrated_row(to_keys, from_keys, from_row, added_keys, added);
    let want = Map::new(
        |k: u64| to_keys.contains(k),
        |k: u64|
            if added_keys.contains(k) {
                added[added_keys.index_of(k)]
            } else {
                from_row[from_keys.index_of(k)]
            },
    );
    assert forall|k: u64| to_keys.contains(k) implies components_map(to_keys, row)[k] == want[k] by {
        let i = to_keys.index_of(k);
        assert(0 <= i < to_keys.len() && to_keys[i] == k);
    }
    assert(components_map(to_keys, row) =~= want);
}

/// A migration keeps every component that it does not remove: a component
/// of a type that the entity had before and has afterwards has the value it
/// had.
pub proof fn lemma_migration_keeps_components<C>(
    to_keys: Seq<u64>,
    from_keys: Seq<u64>,
    from_row: Seq<C>,
    added_keys: Seq<u64>,
    added: Seq<C>,
    key: u64,
)
    requires
        migration_fits(to_keys, from_keys, added_keys),
        from_keys.contains(key),
        to_keys.contains(key),
    ensures
        components_map(to_keys, migrated_row(to_keys, from_keys, from_row, added_keys, added))[key]
            == components_map(from_keys, from_row)[key],
{
    lemma_migrated_components(to_keys, from_keys, from_row, added_keys, added);
}

/// The components of an entity after the one in column `i` of its row was
/// replaced.
pub proof fn lemma_replaced_components<C>(keys: Seq<u64>, row: Seq<C>, i: int, value: C)
    requires
        crate::type_set::ascending(keys),
        row.len() == keys.len(),
        0 <= i < keys.len(),
    ensures
        components_map(keys, row.update(i, value)) == components_map(keys, row).insert(
            keys[i],
            value,
        ),
{
    assert(keys.contains(keys[i]));
    assert forall|k: u64| keys.contains(k) implies components_map(keys, row.update(i, value))[k]
        == components_map(keys, row).insert(keys[i], value)[k] by {
        let j = keys.index_of(k);
        assert(0 <= j < keys.len() && keys[j] == k);
        if k == keys[i] {
            if j < i {
                assert(keys[j] < keys[i]);
            } else if i < j {
                assert(keys[i] < keys[j]);
            }
        }
    }
    assert(components_map(keys, row.update(i, value)) =~= components_map(keys, row).insert(
        keys[i],
        value,
    ));
}

/// `v` back to front.
pub(crate) fn reversed<T>(v: Vec<T>) -> (r: Vec<T>)
    ensures
        r@ == v@.reverse(),
{
    let mut v = v;
    let ghost all = v@;
    let mut r: Vec<T> = Vec::new();
    while v.len() > 0
        invariant
            v@.len() + r@.len() == all.len(),
            v@ == all.take(v@.len() as int),
            forall|j: int| 0 <= j < r@.len() ==> r@[j] == all[all.len() - 1 - j],
        decreases v@.len(),
    {
        let x = v.pop().unwrap();
        r.push(x);
    }
    assert(r@ =~= all.reverse());
    r
}

/// Builds the row of a migrated entity from the row it had and the added
/// components. Components of types that the target lacks are dropped.
fn merge_row<C>(
    to: &TypeSet,
    from: &TypeSet,
    from_row: Vec<C>,
    added_keys: &TypeSet,
    added: Vec<C>,
) -> (out: Vec<C>)
    requires
        to.wf(),
        from.wf(),
        added_keys.wf(),
        from_row@.len() == from.keys().len(),
        added@.len() == added_keys.keys().len(),
        migration_fits(to.keys(), from.keys(), added_keys.keys()),
    ensures
        out@ == migrated_row(to.keys(), from.keys(), from_row@, added_keys.keys(), added@),
{
    let ghost tk = to.keys();
    let ghost fk = from.keys();
    let ghost ak = added_keys.keys();
    let ghost fr = from_row@;
    let ghost ad = added@;
    let ghost want = migrated_row(tk, fk, fr, ak, ad);
    proof {
        to.lemma_keys_ascending();
        from.lemma_keys_ascending();
        added_keys.lemma_keys_ascending();
    }
    let mut rest_from = reversed(from_row);
    let mut rest_added = reversed(added);
    let to_n = to.len();
    let from_n = from.len();
    let add_n = added_keys.len();
    let mut out: Vec<C> = Vec::new();
    let mut t: usize = 0;
    let mut si: usize = 0;
    let mut ai: usize = 0;
    while t < to_n
        invariant
            tk == to.keys(),
            fk == from.keys(),
            ak == added_keys.keys(),
            crate::type_set::ascending(tk),
            crate::type_set::ascending(fk),
            crate::type_set::ascending(ak),
            migration_fits(tk, fk, ak),
            want == migrated_row(tk, fk, fr, ak, ad),
            to_n == tk.len(),
            from_n == fk.len(),
            add_n == ak.len(),
            fr.len() == from_n,
            ad.len() == add_n,
            t <= to_n,
            si <= from_n,
            ai <= add_n,
            rest_from@.len() == from_n - si,
            forall|j: int| 0 <= j < from_n - si ==> rest_from@[j] == fr[from_n - 1 - j],
            rest_added@.len() == add_n - ai,
            forall|j: int| 0 <= j < add_n - ai ==> rest_added@[j] == ad[add_n - 1 - j],
            out@.len() == t,
            forall|j: int| 0 <= j < t ==> out@[j] == want[j],
            forall|j: int, u: int| 0 <= j < si && t <= u < to_n ==> fk[j] < tk[u],
            forall|j: int, u: int| 0 <= j < ai && t <= u < to_n ==> ak[j] < tk[u],
            forall|j: int, u: int| ai <= j < add_n && 0 <= u < t ==> ak[j] != tk[u],
        decreases to_n - t,
    {
        let k = to.key(t);
        while si < from_n && from.key(si) < k
            invariant
                fk == from.keys(),
                crate::type_set::ascending(tk),
                from_n == fk.len(),
                to_n == tk.len(),
                t < to_n,
                k == tk[t as int],
                si <= from_n,
                rest_from@.len() == from_n - si,
                forall|j: int| 0 <= j < from_n - si ==> rest_from@[j] == fr[from_n - 1 - j],
                forall|j: int, u: int| 0 <= j < si && t <= u < to_n ==> fk[j] < tk[u],
            decreases from_n - si,
        {
            let dropped = rest_from.pop();
            si += 1;
        }
        if si < from_n && from.key(si) == k {
            let v = rest_from.pop().unwrap();
            proof {
                assert(fk.contains(k));
                assert(!ak.contains(k));
                let p = fk.index_of(k);
                assert(0 <= p < fk.len() && fk[p] == k);
                assert(p == si) by {
                    if p < si {
                        assert(fk[p] < fk[si as int]);
                    } else if p > si {
                        assert(fk[si as int] < fk[p]);
                    }
                }
                assert(v == fr[si as int]);
                assert(want[t as int] == v);
            }
            out.push(v);
            si += 1;
        } else {
            proof {
                assert(tk.contains(k));
                assert(!fk.contains(k)) by {
                    if fk.contains(k) {
                        let p = choose|p: int| 0 <= p < fk.len() && fk[p] == k;
                        if p < si {
                            assert(fk[p] < tk[t as int]);
                        } else {
                            assert(si < from_n);
                            if p > si {
                                assert(fk[si as int] < fk[p]);
                            }
                        }
                    }
                }
                assert(ak.contains(k));
                let q = ak.index_of(k);
                assert(0 <= q < ak.len() && ak[q] == k);
                assert(q >= ai) by {
                    if q < ai {
                        assert(ak[q] < tk[t as int]);
                    }
                }
                assert(q == ai) by {
                    if q > ai {
                        let first = ak[ai as int];
                        assert(ak.contains(first));
                        assert(tk.contains(first));
                        let u = choose|u: int| 0 <= u < tk.len() && tk[u] == first;
                        assert(u >= t);
                        if u > t {
                            assert(tk[t as int] < tk[u]);
                        }
                        assert(first >= k);
                        assert(ak[ai as int] < ak[q]);
                    }
                }
            }
            let v = rest_added.pop().unwrap();
            proof {
                assert(v == ad[ai as int]);
                assert(want[t as int] == v);
            }
            out.push(v);
            ai += 1;
        }
        t += 1;
    }
    assert(out@ =~= want);
    out
}

/// All archetypes of a world, each named by its index. Index 0 is the
/// archetype without components, where new entities start.
pub struct Archetypes<C> {
    archetypes: Vec<Archetype<C>>,
}

impl<C> Archetypes<C> {
    /// The archetypes by index.
    pub closed spec fn view(&self) -> Seq<Archetype<C>> {
        self.archetypes@
    }

    /// Every table is well formed, the first one has no component types,
    /// and no two tables have the same types.
    pub open spec fn wf(&self) -> bool {
        &&& self@.len() >= 1
        &&& self@[0].keys().len() == 0
        &&& forall|a: int| 0 <= a < self@.len() ==> (#[trigger] self@[a]).wf()
        &&& forall|a: int, b: int|
            0 <= a < b < self@.len() ==> (#[trigger] self@[a]).keys() != (#[trigger] self@[b]).keys()
    }

    /// The archetypes without their component values.
    pub open spec fn rows(&self) -> crate::rows::Rows {
        Seq::new(self@.len(), |a: int| (self@[a].keys(), self@[a].entities()))
    }

    /// Some archetype has exactly the types `keys`.
    pub open spec fn has(&self, keys: Seq<u64>) -> bool {
        exists|a: int| 0 <= a < self@.len() && (#[trigger] self@[a]).keys() == keys
    }

    /// All archetypes but `a` are the same in `self` and `before`.
    pub open spec fn same_but(&self, before: Archetypes<C>, a: int) -> bool {
        &&& self@.len() == before@.len()
        &&& forall|b: int| 0 <= b < before@.len() && b != a ==> #[trigger] self@[b] == before@[b]
    }

    /// All archetypes but `a` and `b` are the same in `self` and `before`.
    pub open spec fn same_but_two(&self, before: Archetypes<C>, a: int, b: int) -> bool {
        &&& self@.len() == before@.len()
        &&& forall|c: int|
            0 <= c < before@.len() && c != a && c != b ==> #[trigger] self@[c] == before@[c]
    }

    /// `next` has the archetypes of `self`, each with the types it had, and
    /// maybe more of them behind.
    pub open spec fn grows_to(&self, next: &Archetypes<C>) -> bool {
        &&& self@.len() <= next@.len()
        &&& forall|a: int| 0 <= a < self@.len() ==> (#[trigger] next@[a]).keys() == self@[a].keys()
    }

    /// The archetype with given types is found by them, among the rows as
    /// in the storage.
    pub proof fn lemma_rows_plot(&self, keys: Seq<u64>)
        requires
            self.wf(),
        ensures
            crate::rows::has_plot(self.rows(), keys) == self.has(keys),
            forall|a: int|
                0 <= a < self@.len() && (#[trigger] self@[a]).keys() == keys ==> crate::rows::plot_of(
                    self.rows(),
                    keys,
                ) == a,
            !self.has(keys) ==> crate::rows::plot_of(self.rows(), keys) == self@.len(),
    {
        let rows = self.rows();
        if self.has(keys) {
            let a = choose|a: int| 0 <= a < self@.len() && (#[trigger] self@[a]).keys() == keys;
            assert(rows[a].0 == keys);
        }
        if crate::rows::has_plot(rows, keys) {
            let b = choose|b: int| 0 <= b < rows.len() && (#[trigger] rows[b]).0 == keys;
            assert(self@[b].keys() == keys);
        }
        assert forall|a: int| 0 <= a < self@.len() && (#[trigger] self@[a]).keys() == keys implies crate::rows::plot_of(
            self.rows(),
            keys,
        ) == a by {
            assert(rows[a].0 == keys);
            let b = crate::rows::plot_of(rows, keys);
            assert(0 <= b < rows.len() && rows[b].0 == keys);
            self.lemma_one_archetype_per_type_set(a, b);
        }
    }

    /// An archetype is known by its types: no type set is stored twice, so
    /// there are never more archetypes than type sets in use.
    pub proof fn lemma_one_archetype_per_type_set(&self, a: int, b: int)
        requires
            self.wf(),
            0 <= a < self@.len(),
            0 <= b < self@.len(),
            self@[a].keys() == self@[b].keys(),
        ensures
            a == b,
    {
        if a < b {
            assert(self@[a].keys() != self@[b].keys());
        } else if b < a {
            assert(self@[b].keys() != self@[a].keys());
        }
    }

    /// The storage with the empty archetype alone.
    pub fn new() -> (s: Archetypes<C>)
        ensures
            s.wf(),
            s@.len() == 1,
            s@[0].entities().len() == 0,
    {
        let empty = Archetype::new(TypeSet::new());
        let mut archetypes: Vec<Archetype<C>> = Vec::new();
        archetypes.push(empty);
        Archetypes { archetypes }
    }

    /// Number of archetypes.
    pub fn len(&self) -> (n: usize)
        ensures
            n == self@.len(),
    {
        self.archetypes.len()
    }

    /// The archetype with index `a`.
    pub fn table(&self, a: usize) -> (t: &Archetype<C>)
        requires
            a < self@.len(),
        ensures
            *t == self@[a as int],
    {
        &self.archetypes[a]
    }

    /// Index of the archetype with exactly the types `types`, if there is one.
    pub fn find(&self, types: &TypeSet) -> (r: Option<usize>)
        requires
            self.wf(),
            types.wf(),
        ensures
            match r {
                Some(a) => a < self@.len() && self@[a as int].keys() == types.keys(),
                None => !self.has(types.keys()),
            },
    {
        let mut a: usize = 0;
        while a < self.archetypes.len()
            invariant
                a <= self.archetypes@.len(),
                self.wf(),
                types.wf(),
                forall|b: int| 0 <= b < a ==> (#[trigger] self@[b]).keys() != types.keys(),
            decreases self.archetypes@.len() - a,
        {
            assert(self@[a as int].wf());
            if self.archetypes[a].type_set().same(types) {
                return Some(a);
            }
            a += 1;
        }
        None
    }

    /// Index of the archetype with exactly the types `types`. If there is
    /// none yet, an empty one is appended; the archetypes that exist keep
    /// their indices and contents either way.
    pub fn get_or_create_archetype(&mut self, types: &TypeSet) -> (id: usize)
        requires
            old(self).wf(),
            types.wf(),
        ensures
            final(self).wf(),
            id < final(self)@.len(),
            final(self)@[id as int].keys() == types.keys(),
            old(self).has(types.keys()) ==> final(self)@ == old(self)@,
            !old(self).has(types.keys()) ==> {
                &&& id == old(self)@.len()
                &&& final(self)@.len() == old(self)@.len() + 1
                &&& final(self)@.take(old(self)@.len() as int) == old(self)@
                &&& final(self)@[id as int].entities().len() == 0
            },
    {
        match self.find(types) {
            Some(a) => a,
            None => {
                let id = self.archetypes.len();
                let fresh = Archetype::new(types.duplicate());
                self.archetypes.push(fresh);
                proof {
                    assert(self@.take(old(self)@.len() as int) =~= old(self)@);
                    assert forall|a: int| 0 <= a < self@.len() implies (#[trigger] self@[a]).wf() by {
                        if a < id {
                            assert(self@[a] == old(self)@[a]);
                        }
                    }
                    assert forall|a: int, b: int| 0 <= a < b < self@.len() implies (#[trigger] self@[a]).keys() != (#[trigger] self@[b]).keys() by {
                        assert(self@[a] == old(self)@[a]);
                        if b < id {
                            assert(self@[b] == old(self)@[b]);
                        }
                    }
                    assert(self@[0] == old(self)@[0]);
                }
                id
            },
        }
    }

    /// Appends a row for `e` to archetype `a`, with one component per type of
    /// the archetype, in the order of its keys. Returns the index of the row.
    pub fn insert(&mut self, a: usize, e: Entity, values: Vec<C>) -> (r: usize)
        requires
            old(self).wf(),
            a < old(self)@.len(),
            values@.len() == old(self)@[a as int].keys().len(),
        ensures
            final(self).wf(),
            final(self).same_but(*old(self), a as int),
            r == old(self)@[a as int].entities().len(),
            final(self)@[a as int].is_push_of(old(self)@[a as int], e, values@),
    {
        assert(self@[a as int].wf());
        let r = self.archetypes[a].push_row(e, values);
        proof {
            self.lemma_keys_kept(*old(self));
        }
        r
    }

    /// Takes row `r` out of archetype `a` by swap-remove. Returns the
    /// components of the row, in the order of the archetype's keys, and the
    /// entity that was moved into row `r`, if `r` was not the last row.
    pub fn remove(&mut self, a: usize, r: usize) -> (out: (Vec<C>, Option<Entity>))
        requires
            old(self).wf(),
            a < old(self)@.len(),
            r < old(self)@[a as int].entities().len(),
        ensures
            final(self).wf(),
            final(self).same_but(*old(self), a as int),
            out.0@ == old(self)@[a as int].row(r as int),
            final(self)@[a as int].is_take_of(old(self)@[a as int], r as int),
            out.1 == (if r + 1 == old(self)@[a as int].entities().len() {
                None
            } else {
                Some(old(self)@[a as int].entities().last())
            }),
    {
        assert(self@[a as int].wf());
        let out = self.archetypes[a].take_row(r);
        proof {
            self.lemma_keys_kept(*old(self));
        }
        out
    }

    /// Puts `value` in column `i` of row `r` of archetype `a` and returns
    /// what stood there.
    pub fn replace(&mut self, a: usize, r: usize, i: usize, value: C) -> (was: C)
        requires
            old(self).wf(),
            a < old(self)@.len(),
            i < old(self)@[a as int].keys().len(),
            r < old(self)@[a as int].entities().len(),
        ensures
            final(self).wf(),
            final(self).same_but(*old(self), a as int),
            final(self)@[a as int].keys() == old(self)@[a as int].keys(),
            final(self)@[a as int].entities() == old(self)@[a as int].entities(),
            was == old(self)@[a as int].columns()[i as int][r as int],
            final(self)@[a as int].columns() == old(self)@[a as int].columns().update(
                i as int,
                old(self)@[a as int].columns()[i as int].update(r as int, value),
            ),
    {
        assert(self@[a as int].wf());
        let was = self.archetypes[a].replace(r, i, value);
        proof {
            self.lemma_keys_kept(*old(self));
        }
        was
    }

    /// Moves the entity in row `r` of archetype `from` to archetype `to`.
    /// The components of the types that both archetypes have move with it,
    /// those of types that `to` lacks are dropped, and the components
    /// `added`, one per key of `added_keys` in ascending order, fill the
    /// types that `from` lacks. Returns the entity's row in `to` and the
    /// entity that the swap-remove moved into row `r` of `from`, if any.
    pub fn migrate(
        &mut self,
        from: usize,
        r: usize,
        to: usize,
        added_keys: &TypeSet,
        added: Vec<C>,
    ) -> (out: (usize, Option<Entity>))
        requires
            old(self).wf(),
            from < old(self)@.len(),
            to < old(self)@.len(),
            from != to,
            r < old(self)@[from as int].entities().len(),
            added_keys.wf(),
            added@.len() == added_keys.keys().len(),
            migration_fits(
                old(self)@[to as int].keys(),
                old(self)@[from as int].keys(),
                added_keys.keys(),
            ),
        ensures
            final(self).wf(),
            final(self).same_but_two(*old(self), from as int, to as int),
            final(self)@[from as int].is_take_of(old(self)@[from as int], r as int),
            out.0 == old(self)@[to as int].entities().len(),
            final(self)@[to as int].is_push_of(
                old(self)@[to as int],
                old(self)@[from as int].entities()[r as int],
                migrated_row(
                    old(self)@[to as int].keys(),
                    old(self)@[from as int].keys(),
                    old(self)@[from as int].row(r as int),
                    added_keys.keys(),
                    added@,
                ),
            ),
            out.1 == (if r + 1 == old(self)@[from as int].entities().len() {
                None
            } else {
                Some(old(self)@[from as int].entities().last())
            }),
    {
        assert(self@[from as int].wf());
        assert(self@[to as int].wf());
        let e = self.archetypes[from].entity_at(r);
        let (row, moved) = self.archetypes[from].take_row(r);
        assert(self@[to as int] == old(self)@[to as int]);
        let merged = merge_row(
            self.archetypes[to].type_set(),
            self.archetypes[from].type_set(),
            row,
            added_keys,
            added,
        );
        let ghost mid = *self;
        let new_row = self.archetypes[to].push_row(e, merged);
        proof {
            assert forall|c: int| 0 <= c < self@.len() implies (#[trigger] self@[c]).keys() == old(self)@[c].keys() && self@[c].wf() by {
                if c != from && c != to {
                    assert(self@[c] == mid@[c]);
                    assert(mid@[c] == old(self)@[c]);
                } else if c == from {
                    assert(self@[c] == mid@[c]);
                }
            }
            self.lemma_keys_kept(*old(self));
        }
        (new_row, moved)
    }

    /// A storage whose tables are well formed and have the types that the
    /// tables of a well-formed storage have is well formed.
    proof fn lemma_keys_kept(&self, before: Archetypes<C>)
        requires
            before.wf(),
            self@.len() == before@.len(),
            forall|a: int| 0 <= a < self@.len() ==> (#[trigger] self@[a]).wf() || self@[a] == before@[a],
            forall|a: int| 0 <= a < self@.len() ==> (#[trigger] self@[a]).keys() == before@[a].keys() || self@[a] == before@[a],
        ensures
            self.wf(),
    {
        assert forall|a: int| 0 <= a < self@.len() implies (#[trigger] self@[a]).wf() by {
            assert(before@[a].wf());
        }
        assert forall|a: int, b: int| 0 <= a < b < self@.len() implies (#[trigger] self@[a]).keys() != (#[trigger] self@[b]).keys() by {
            assert(before@[a].keys() != before@[b].keys());
        }
    }
}

} // verus!
