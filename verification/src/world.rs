//! The entity store that queries run against, modelled as plain data.
//!
//! Entities are grouped by their exact field set ("composition") into
//! archetypes, created lazily in a fixed order and never destroyed. Each
//! archetype owns one table holding a contiguous column per table-backed
//! field; sparse-backed fields live in one per-field map keyed by entity.

use vstd::prelude::*;

use crate::tick::ComponentTicks;

verus! {

/// Stable numeric id of a field type, assigned by the registry.
#[derive(Clone, Copy, Debug, PartialEq, Eq, Hash, Structural)]
pub struct ComponentId {
    pub id: usize,
}

/// Where a field's data lives: a per-archetype column, or a per-field map.
#[derive(Clone, Copy, Debug, PartialEq, Eq, Structural)]
pub enum StorageType {
    Table,
    SparseSet,
}

/// Handle of one record: an index slot plus a generation that would
/// invalidate stale handles if slots were ever reused.
#[derive(Clone, Copy, Debug, PartialEq, Eq, Hash, Structural)]
pub struct Entity {
    pub index: u32,
    pub generation: u32,
}

/// Registry entry of one field type.
#[derive(Clone, Copy, Debug, PartialEq, Eq, Structural)]
pub struct ComponentInfo {
    pub storage_type: StorageType,
}

/// One contiguous column of a table: the values of one field for every row,
/// with the change metadata alongside.
pub struct Column {
    pub component_id: ComponentId,
    pub values: Vec<u64>,
    pub ticks: Vec<ComponentTicks>,
}

/// The dense storage of one archetype: one column per table-backed field.
pub struct Table {
    pub columns: Vec<Column>,
}

/// One slot of a sparse set: a value and its metadata, keyed by entity.
#[derive(Clone, Copy, Debug, PartialEq, Eq, Structural)]
pub struct SparseEntry {
    pub entity: Entity,
    pub value: u64,
    pub ticks: ComponentTicks,
}

/// The per-field map of one sparse-backed field.
pub struct ComponentSparseSet {
    pub component_id: ComponentId,
    pub entries: Vec<SparseEntry>,
}

/// One composition group: its exact field set, its entities in insertion
/// order, and the id of its table.
pub struct Archetype {
    pub table_id: usize,
    pub components: Vec<ComponentId>,
    pub entities: Vec<Entity>,
}

/// The store: field registry, append-only archetype list, per-archetype
/// tables, per-field sparse sets, and the change-tick counters.
pub struct World {
    pub id: u64,
    pub components: Vec<ComponentInfo>,
    pub archetypes: Vec<Archetype>,
    pub tables: Vec<Table>,
    pub sparse_sets: Vec<ComponentSparseSet>,
    pub next_entity_index: u32,
    pub last_change_tick: u32,
    pub change_tick: u32,
}

impl Archetype {
    /// Does this composition contain the field `c`?
    pub open spec fn spec_has(self, c: ComponentId) -> bool {
        self.components@.contains(c)
    }

    pub fn contains(&self, c: ComponentId) -> (r: bool)
        ensures
            r == self.spec_has(c),
    {
        let n = self.components.len();
        let mut i: usize = 0;
        while i < n
            invariant
                i <= n,
                n == self.components@.len(),
                forall|j: int| 0 <= j < i ==> self.components@[j] != c,
            decreases n - i,
        {
            if self.components[i] == c {
                return true;
            }
            i = i + 1;
        }
        false
    }
}

/// The index of the column for field `c`; meaningful only when such a column
/// exists and column ids are distinct.
pub open spec fn spec_the_col(cols: Seq<Column>, c: ComponentId) -> int {
    choose|ci: int| 0 <= ci < cols.len() && cols[ci].component_id == c
}

/// The index of the sparse entry keyed by `e`; meaningful only when such an
/// entry exists and entry keys are distinct.
pub open spec fn spec_the_entry(entries: Seq<SparseEntry>, e: Entity) -> int {
    choose|k: int| 0 <= k < entries.len() && entries[k].entity == e
}

pub open spec fn spec_has_col(cols: Seq<Column>, c: ComponentId) -> bool {
    exists|ci: int| 0 <= ci < cols.len() && cols[ci].component_id == c
}

pub open spec fn spec_has_entry(entries: Seq<SparseEntry>, e: Entity) -> bool {
    exists|k: int| 0 <= k < entries.len() && entries[k].entity == e
}

impl Table {
    /// Linear lookup of the column holding field `c`.
    pub fn column_index(&self, c: ComponentId) -> (r: Option<usize>)
        ensures
            match r {
                Some(ci) => ci < self.columns@.len() && self.columns@[ci as int].component_id
                    == c,
                None => !spec_has_col(self.columns@, c),
            },
    {
        let n = self.columns.len();
        let mut i: usize = 0;
        while i < n
            invariant
                i <= n,
                n == self.columns@.len(),
                forall|j: int| 0 <= j < i ==> self.columns@[j].component_id != c,
            decreases n - i,
        {
            if self.columns[i].component_id == c {
                return Some(i);
            }
            i = i + 1;
        }
        None
    }
}

impl ComponentSparseSet {
    /// Linear lookup of the entry keyed by entity `e`.
    pub fn find(&self, e: Entity) -> (r: Option<usize>)
        ensures
            match r {
                Some(k) => k < self.entries@.len() && self.entries@[k as int].entity == e,
                None => !spec_has_entry(self.entries@, e),
            },
    {
        let n = self.entries.len();
        let mut i: usize = 0;
        while i < n
            invariant
                i <= n,
                n == self.entries@.len(),
                forall|j: int| 0 <= j < i ==> self.entries@[j].entity != e,
            decreases n - i,
        {
            if self.entries[i].entity == e {
                return Some(i);
            }
            i = i + 1;
        }
        None
    }
}

/// Element-wise comparison of two compositions.
pub fn components_equal(x: &Vec<ComponentId>, y: &Vec<ComponentId>) -> (r: bool)
    ensures
        r == (x@ == y@),
{
    if x.len() != y.len() {
        assert(x@ != y@) by {
            assert(x@.len() != y@.len());
        }
        return false;
    }
    let n = x.len();
    let mut i: usize = 0;
    while i < n
        invariant
            i <= n,
            n == x@.len(),
            n == y@.len(),
            forall|j: int| 0 <= j < i ==> x@[j] == y@[j],
        decreases n - i,
    {
        if x[i] != y[i] {
            return false;
        }
        i = i + 1;
    }
    proof {
        assert(x@ =~= y@);
    }
    true
}

/// The index of the archetype whose composition is exactly `comps`, or the
/// archetype count when no such archetype exists yet.
pub open spec fn spec_arch_with(w: World, comps: Seq<ComponentId>) -> int {
    if exists|a: int|
        0 <= a < w.archetypes@.len() && (#[trigger] w.archetypes@[a]).components@ == comps {
        choose|a: int|
            0 <= a < w.archetypes@.len() && (#[trigger] w.archetypes@[a]).components@ == comps
    } else {
        w.archetypes@.len() as int
    }
}

/// In a store with distinct compositions, `spec_arch_with` is the index of
/// any archetype that carries the composition.
pub proof fn lemma_arch_with_is(w: World, comps: Seq<ComponentId>, a: int)
    requires
        w.arch_distinct_wf(),
        0 <= a < w.archetypes@.len(),
        w.archetypes@[a].components@ == comps,
    ensures
        spec_arch_with(w, comps) == a,
{
    let a2 = choose|a2: int|
        0 <= a2 < w.archetypes@.len() && (#[trigger] w.archetypes@[a2]).components@ == comps;
    if a2 != a {
        if a2 < a {
            assert(w.archetypes@[a2].components@ != w.archetypes@[a].components@);
        } else {
            assert(w.archetypes@[a].components@ != w.archetypes@[a2].components@);
        }
    }
}

/// With distinct column ids, any index holding `c` is the chosen one.
pub proof fn lemma_the_col_is(cols: Seq<Column>, c: ComponentId, ci: int)
    requires
        0 <= ci < cols.len(),
        cols[ci].component_id == c,
        forall|i: int, j: int|
            0 <= i < j < cols.len() ==> (#[trigger] cols[i]).component_id != (
            #[trigger] cols[j]).component_id,
    ensures
        spec_the_col(cols, c) == ci,
        spec_has_col(cols, c),
{
    assert(0 <= ci < cols.len() && cols[ci].component_id == c);
    let cj = spec_the_col(cols, c);
    if cj != ci {
        if cj < ci {
            assert(cols[cj].component_id != cols[ci].component_id);
        } else {
            assert(cols[ci].component_id != cols[cj].component_id);
        }
    }
}

/// With distinct entry keys, any index keyed by `e` is the chosen one.
pub proof fn lemma_the_entry_is(entries: Seq<SparseEntry>, e: Entity, k: int)
    requires
        0 <= k < entries.len(),
        entries[k].entity == e,
        forall|i: int, j: int|
            0 <= i < j < entries.len() ==> (#[trigger] entries[i]).entity != (
            #[trigger] entries[j]).entity,
    ensures
        spec_the_entry(entries, e) == k,
        spec_has_entry(entries, e),
{
    assert(0 <= k < entries.len() && entries[k].entity == e);
    let k2 = spec_the_entry(entries, e);
    if k2 != k {
        if k2 < k {
            assert(entries[k2].entity != entries[k].entity);
        } else {
            assert(entries[k].entity != entries[k2].entity);
        }
    }
}

/// Store growth: `w1` has everything `w0` has, at the same positions and
/// with the same values and change metadata; it may have more archetypes
/// and more rows at the end.
pub open spec fn spec_store_extends(w0: World, w1: World) -> bool {
    &&& w1.id == w0.id
    &&& w1.components@ == w0.components@
    &&& w0.archetypes@.len() <= w1.archetypes@.len()
    &&& forall|a: int|
        0 <= a < w0.archetypes@.len() ==> {
            &&& (#[trigger] w1.archetypes@[a]).components@ == w0.archetypes@[a].components@
            &&& w1.archetypes@[a].table_id == w0.archetypes@[a].table_id
            &&& w0.archetypes@[a].entities@.len() <= w1.archetypes@[a].entities@.len()
        }
    &&& forall|a: int, row: int|
        w0.spec_pos_valid(a, row) ==> #[trigger] w1.spec_entity_at(a, row) == w0.spec_entity_at(
            a,
            row,
        )
    &&& forall|a: int, row: int, c: ComponentId|
        w0.spec_pos_valid(a, row) && w0.archetypes@[a].spec_has(c) ==> {
            &&& #[trigger] w1.spec_slot_value(a, row, c) == w0.spec_slot_value(a, row, c)
            &&& w1.spec_slot_ticks(a, row, c) == w0.spec_slot_ticks(a, row, c)
        }
}

/// During row insertion: `newc` is `oldc` with the new row's value appended
/// when the column's field is among the first `i` of `comps`, else untouched.
pub open spec fn spec_col_pushed(
    oldc: Column,
    newc: Column,
    comps: Seq<ComponentId>,
    vals: Seq<u64>,
    i: int,
    tick: ComponentTicks,
) -> bool {
    &&& newc.component_id == oldc.component_id
    &&& if exists|j: int| 0 <= j < i && comps[j] == oldc.component_id {
        {
            let j = choose|j: int| 0 <= j < i && comps[j] == oldc.component_id;
            newc.values@ == oldc.values@.push(vals[j]) && newc.ticks@ == oldc.ticks@.push(tick)
        }
    } else {
        newc == oldc
    }
}

/// Exit state of row insertion: from the per-column and per-sparse-set
/// push descriptions, conclude well-formedness, store extension, and the
/// new row's slot values.
#[verifier::rlimit(40)]
proof fn lemma_push_row_post(
    w0: World,
    w1: World,
    t: int,
    vals: Seq<u64>,
    e: Entity,
    tick: ComponentTicks,
)
    requires
        w0.wf(),
        0 <= t < w0.archetypes@.len(),
        vals.len() == w0.archetypes@[t].components@.len(),
        forall|a: int, row: int|
            w0.spec_pos_valid(a, row) ==> #[trigger] w0.spec_entity_at(a, row) != e,
        forall|c: int, k: int|
            0 <= c < w0.sparse_sets@.len() && 0 <= k < w0.sparse_sets@[c].entries@.len() ==> (
            #[trigger] w0.sparse_sets@[c].entries@[k]).entity != e,
        e.index < w0.next_entity_index,
        tick == (ComponentTicks { added: w0.change_tick, changed: w0.change_tick }),
        w1.id == w0.id,
        w1.components@ == w0.components@,
        w1.next_entity_index == w0.next_entity_index,
        w1.last_change_tick == w0.last_change_tick,
        w1.change_tick == w0.change_tick,
        w1.archetypes@.len() == w0.archetypes@.len(),
        forall|a: int|
            0 <= a < w0.archetypes@.len() && a != t ==> #[trigger] w1.archetypes@[a]
                == w0.archetypes@[a],
        w1.archetypes@[t].table_id == w0.archetypes@[t].table_id,
        w1.archetypes@[t].components@ == w0.archetypes@[t].components@,
        w1.archetypes@[t].entities@ == w0.archetypes@[t].entities@.push(e),
        w1.tables@.len() == w0.tables@.len(),
        forall|t2: int|
            0 <= t2 < w0.tables@.len() && t2 != t ==> #[trigger] w1.tables@[t2]
                == w0.tables@[t2],
        w1.tables@[t].columns@.len() == w0.tables@[t].columns@.len(),
        forall|ci: int|
            0 <= ci < w0.tables@[t].columns@.len() ==> spec_col_pushed(
                w0.tables@[t].columns@[ci],
                #[trigger] w1.tables@[t].columns@[ci],
                w0.archetypes@[t].components@,
                vals,
                w0.archetypes@[t].components@.len() as int,
                tick,
            ),
        w1.sparse_sets@.len() == w0.sparse_sets@.len(),
        forall|c: int|
            0 <= c < w1.sparse_sets@.len() ==> (#[trigger] w1.sparse_sets@[c]).component_id
                == w0.sparse_sets@[c].component_id,
        forall|c: int|
            0 <= c < w1.sparse_sets@.len() ==> {
                if w0.components@[c].storage_type is SparseSet && (exists|j: int|
                    0 <= j < w0.archetypes@[t].components@.len() && (#[trigger] w0.archetypes@[t].components@[j]).id
                        == c) {
                    {
                        let j = choose|j: int|
                            0 <= j < w0.archetypes@[t].components@.len() && (
                            #[trigger] w0.archetypes@[t].components@[j]).id == c;
                        (#[trigger] w1.sparse_sets@[c]).entries@
                            == w0.sparse_sets@[c].entries@.push(
                            SparseEntry { entity: e, value: vals[j], ticks: tick },
                        )
                    }
                } else {
                    w1.sparse_sets@[c] == w0.sparse_sets@[c]
                }
            },
    ensures
        w1.wf(),
        spec_store_extends(w0, w1),
        forall|i: int|
            0 <= i < w0.archetypes@[t].components@.len() ==> {
                let c = #[trigger] w0.archetypes@[t].components@[i];
                let row = w0.archetypes@[t].entities@.len() as int;
                &&& w1.spec_slot_value(t, row, c) == vals[i]
                &&& w1.spec_slot_ticks(t, row, c) == tick
            },
{
    let comps = w0.archetypes@[t].components@;
    let m = comps.len() as int;
    let cols0 = w0.tables@[t].columns@;
    let cols1 = w1.tables@[t].columns@;
    let nrows = w0.archetypes@[t].entities@.len() as int;
    assert(w0.arch_components_wf(t));
    assert(w0.arch_table_wf(t));
    assert(w0.arch_sparse_wf(t));
    assert forall|j: int, j2: int| 0 <= j < j2 < m implies (#[trigger] comps[j]).id != (
    #[trigger] comps[j2]).id by {
        assert(comps[j].id < comps[j2].id);
    }
    // column ids are preserved, hence still distinct
    assert forall|ci: int| 0 <= ci < cols1.len() implies (#[trigger] cols1[ci]).component_id
        == cols0[ci].component_id by {
        assert(spec_col_pushed(cols0[ci], cols1[ci], comps, vals, m, tick));
    }
    // every column of t's table was pushed exactly once
    assert forall|ci: int| 0 <= ci < cols1.len() implies {
        &&& (#[trigger] cols1[ci]).values@ == cols0[ci].values@.push(
            vals[spec_index_of(comps, cols0[ci].component_id)],
        )
        &&& cols1[ci].ticks@ == cols0[ci].ticks@.push(tick)
    } by {
        assert(spec_col_pushed(cols0[ci], cols1[ci], comps, vals, m, tick));
        let c = cols0[ci].component_id;
        assert(w0.archetypes@[t].spec_has(c));
        let j0 = choose|j0: int| 0 <= j0 < comps.len() && comps[j0] == c;
        assert(comps[j0] == c);
        assert(exists|j: int| 0 <= j < m && comps[j] == c);
        let j = choose|j: int| 0 <= j < m && comps[j] == c;
        lemma_index_of_is(comps, c, j);
        assert(cols1[ci].values@ == cols0[ci].values@.push(vals[j]));
    }
    // sparse sets keyed by a composition field got exactly the new entry
    assert(w1.wf()) by {
        assert forall|a: int| 0 <= a < w1.archetypes@.len() implies {
            &&& #[trigger] w1.arch_components_wf(a)
            &&& w1.arch_table_wf(a)
            &&& w1.arch_sparse_wf(a)
        } by {
            assert(w0.arch_components_wf(a));
            assert(w0.arch_table_wf(a));
            assert(w0.arch_sparse_wf(a));
            if a != t {
                assert(w1.archetypes@[a] == w0.archetypes@[a]);
                assert(w1.tables@[a] == w0.tables@[a]);
                assert(w1.arch_components_wf(a));
                assert(w1.arch_table_wf(a)) by {
                    assert forall|i2: int|
                        0 <= i2 < w1.archetypes@[a].components@.len() && w1.spec_storage(
                            #[trigger] w1.archetypes@[a].components@[i2],
                        ) is Table implies spec_has_col(
                        w1.tables@[a].columns@,
                        w1.archetypes@[a].components@[i2],
                    ) by {
                        assert(spec_has_col(
                            w0.tables@[a].columns@,
                            w0.archetypes@[a].components@[i2],
                        ));
                    }
                }
                assert(w1.arch_sparse_wf(a)) by {
                    assert forall|i2: int, row: int|
                        0 <= i2 < w1.archetypes@[a].components@.len() && 0 <= row
                            < w1.archetypes@[a].entities@.len() && w1.spec_storage(
                            #[trigger] w1.archetypes@[a].components@[i2],
                        ) is SparseSet implies spec_has_entry(
                        w1.sparse_sets@[w1.archetypes@[a].components@[i2].id as int].entries@,
                        #[trigger] w1.archetypes@[a].entities@[row],
                    ) by {
                        let c = w1.archetypes@[a].components@[i2];
                        assert(spec_has_entry(
                            w0.sparse_sets@[c.id as int].entries@,
                            w0.archetypes@[a].entities@[row],
                        ));
                        let k = choose|k: int|
                            0 <= k < w0.sparse_sets@[c.id as int].entries@.len()
                                && w0.sparse_sets@[c.id as int].entries@[k].entity
                                == w0.archetypes@[a].entities@[row];
                        assert(w1.sparse_sets@[c.id as int].entries@[k].entity
                            == w1.archetypes@[a].entities@[row]);
                    }
                }
            } else {
                assert(w1.arch_components_wf(a));
                assert(w1.arch_table_wf(a)) by {
                    assert forall|ci: int, cj: int| 0 <= ci < cj < cols1.len() implies (
                    #[trigger] cols1[ci]).component_id != (#[trigger] cols1[cj]).component_id by {
                        assert(cols0[ci].component_id != cols0[cj].component_id);
                    }
                    assert forall|ci: int| 0 <= ci < cols1.len() implies {
                        &&& w1.archetypes@[t].spec_has((#[trigger] cols1[ci]).component_id)
                        &&& cols1[ci].component_id.id < w1.components@.len()
                        &&& w1.spec_storage(cols1[ci].component_id) is Table
                        &&& cols1[ci].values@.len() == w1.archetypes@[t].entities@.len()
                        &&& cols1[ci].ticks@.len() == w1.archetypes@[t].entities@.len()
                    } by {
                        assert(w0.archetypes@[t].spec_has(cols0[ci].component_id));
                        assert(cols0[ci].values@.len() == nrows);
                        assert(cols1[ci].values@.len() == nrows + 1);
                    }
                    assert forall|i2: int|
                        0 <= i2 < w1.archetypes@[t].components@.len() && w1.spec_storage(
                            #[trigger] w1.archetypes@[t].components@[i2],
                        ) is Table implies spec_has_col(
                        cols1,
                        w1.archetypes@[t].components@[i2],
                    ) by {
                        assert(spec_has_col(cols0, w0.archetypes@[t].components@[i2]));
                        let ci = choose|ci: int|
                            0 <= ci < cols0.len() && cols0[ci].component_id
                                == w0.archetypes@[t].components@[i2];
                        assert(cols1[ci].component_id == w1.archetypes@[t].components@[i2]);
                    }
                }
                assert(w1.arch_sparse_wf(a)) by {
                    assert forall|i2: int, row: int|
                        0 <= i2 < w1.archetypes@[t].components@.len() && 0 <= row
                            < w1.archetypes@[t].entities@.len() && w1.spec_storage(
                            #[trigger] w1.archetypes@[t].components@[i2],
                        ) is SparseSet implies spec_has_entry(
                        w1.sparse_sets@[w1.archetypes@[t].components@[i2].id as int].entries@,
                        #[trigger] w1.archetypes@[t].entities@[row],
                    ) by {
                        let c = w1.archetypes@[t].components@[i2];
                        let es1 = w1.sparse_sets@[c.id as int].entries@;
                        let es0 = w0.sparse_sets@[c.id as int].entries@;
                        assert(exists|j: int| 0 <= j < m && (#[trigger] comps[j]).id == c.id) by {
                            assert(comps[i2].id == c.id);
                        }
                        assert(es1 == es0.push(
                            SparseEntry {
                                entity: e,
                                value: vals[choose|j: int|
                                    0 <= j < m && (#[trigger] comps[j]).id == c.id],
                                ticks: tick,
                            },
                        ));
                        if row < nrows {
                            assert(spec_has_entry(es0, w0.archetypes@[t].entities@[row]));
                            let k = choose|k: int|
                                0 <= k < es0.len() && es0[k].entity
                                    == w0.archetypes@[t].entities@[row];
                            assert(es1[k].entity == w1.archetypes@[t].entities@[row]);
                        } else {
                            assert(w1.archetypes@[t].entities@[row] == e);
                            assert(es1[es1.len() - 1].entity == e);
                        }
                    }
                }
            }
        }
        assert(w1.sparse_sets_wf()) by {
            assert forall|c: int, k: int|
                0 <= c < w1.sparse_sets@.len() && 0 <= k < w1.sparse_sets@[c].entries@.len()
                    implies (#[trigger] w1.sparse_sets@[c].entries@[k]).entity.index
                < w1.next_entity_index by {
                let es1 = w1.sparse_sets@[c].entries@;
                let es0 = w0.sparse_sets@[c].entries@;
                if es1 != es0 {
                    if k == es0.len() {
                        assert(es1[k].entity == e);
                    } else {
                        assert(es1[k] == es0[k]);
                    }
                }
            }
            assert forall|c: int, k1: int, k2: int|
                0 <= c < w1.sparse_sets@.len() && 0 <= k1 < k2 < w1.sparse_sets@[c].entries@.len()
                    implies (#[trigger] w1.sparse_sets@[c].entries@[k1]).entity != (
            #[trigger] w1.sparse_sets@[c].entries@[k2]).entity by {
                let es1 = w1.sparse_sets@[c].entries@;
                let es0 = w0.sparse_sets@[c].entries@;
                if es1 != es0 {
                    assert(k2 <= es0.len());
                    if k2 == es0.len() {
                        assert(es1[k1] == es0[k1]);
                        assert(es1[k2].entity == e);
                        assert(es0[k1].entity != e);
                    } else {
                        assert(es1[k1] == es0[k1] && es1[k2] == es0[k2]);
                    }
                }
            }
        }
        assert(w1.entities_wf()) by {
            assert forall|a: int, row: int| w1.spec_pos_valid(a, row) implies (
            #[trigger] w1.spec_entity_at(a, row)).index < w1.next_entity_index by {
                if a == t && row == nrows {
                    assert(w1.spec_entity_at(a, row) == e);
                } else {
                    assert(w0.spec_pos_valid(a, row));
                    assert(w1.spec_entity_at(a, row) == w0.spec_entity_at(a, row));
                }
            }
            assert forall|a1: int, row1: int, a2: int, row2: int|
                w1.spec_pos_valid(a1, row1) && w1.spec_pos_valid(a2, row2) && !(a1 == a2 && row1
                    == row2) implies #[trigger] w1.spec_entity_at(a1, row1)
                != #[trigger] w1.spec_entity_at(a2, row2) by {
                let new1 = a1 == t && row1 == nrows;
                let new2 = a2 == t && row2 == nrows;
                if new1 && !new2 {
                    assert(w0.spec_pos_valid(a2, row2));
                    assert(w1.spec_entity_at(a2, row2) == w0.spec_entity_at(a2, row2));
                    assert(w0.spec_entity_at(a2, row2) != e);
                } else if !new1 && new2 {
                    assert(w0.spec_pos_valid(a1, row1));
                    assert(w1.spec_entity_at(a1, row1) == w0.spec_entity_at(a1, row1));
                    assert(w0.spec_entity_at(a1, row1) != e);
                } else if !new1 && !new2 {
                    assert(w0.spec_pos_valid(a1, row1) && w0.spec_pos_valid(a2, row2));
                    assert(w1.spec_entity_at(a1, row1) == w0.spec_entity_at(a1, row1));
                    assert(w1.spec_entity_at(a2, row2) == w0.spec_entity_at(a2, row2));
                }
            }
        }
        assert(w1.arch_distinct_wf()) by {
            assert forall|a1: int, a2: int| 0 <= a1 < a2 < w1.archetypes@.len() implies (
            #[trigger] w1.archetypes@[a1]).components@ != (
            #[trigger] w1.archetypes@[a2]).components@ by {
                assert(w1.archetypes@[a1].components@ == w0.archetypes@[a1].components@);
                assert(w1.archetypes@[a2].components@ == w0.archetypes@[a2].components@);
                assert(w0.archetypes@[a1].components@ != w0.archetypes@[a2].components@);
            }
        }
    }
    assert forall|c2: int| 0 <= c2 < w1.sparse_sets@.len() implies {
        ||| (#[trigger] w1.sparse_sets@[c2]) == w0.sparse_sets@[c2]
        ||| exists|v: u64|
            w1.sparse_sets@[c2].entries@ == w0.sparse_sets@[c2].entries@.push(
                SparseEntry { entity: e, value: v, ticks: tick },
            )
    } by {
        if w1.sparse_sets@[c2] != w0.sparse_sets@[c2] {
            let j = choose|j: int| 0 <= j < m && (#[trigger] comps[j]).id == c2;
            assert(w1.sparse_sets@[c2].entries@ == w0.sparse_sets@[c2].entries@.push(
                SparseEntry { entity: e, value: vals[j], ticks: tick },
            ));
        }
    }
    // extension: old positions keep their entities, values and metadata
    assert forall|a: int, row: int| w0.spec_pos_valid(a, row) implies #[trigger] w1.spec_entity_at(
        a,
        row,
    ) == w0.spec_entity_at(a, row) by {}
    assert forall|a: int, row: int, c: ComponentId|
        w0.spec_pos_valid(a, row) && w0.archetypes@[a].spec_has(c) implies {
        &&& #[trigger] w1.spec_slot_value(a, row, c) == w0.spec_slot_value(a, row, c)
        &&& w1.spec_slot_ticks(a, row, c) == w0.spec_slot_ticks(a, row, c)
    } by {
        lemma_slot_preserved(w0, w1, t, vals, e, tick, a, row, c);
    }
    // the new row holds the given values, stamped with the write tick
    assert forall|i: int| 0 <= i < m implies {
        let c = #[trigger] comps[i];
        &&& w1.spec_slot_value(t, nrows, c) == vals[i]
        &&& w1.spec_slot_ticks(t, nrows, c) == tick
    } by {
        let c = comps[i];
        assert(w1.spec_entity_at(t, nrows) == e);
        if w0.spec_storage(c) is Table {
            assert(spec_has_col(cols0, c)) by {
                assert(w0.archetypes@[t].spec_has(c)) by {
                    assert(comps[i] == c);
                }
            }
            let ci = spec_the_col(cols0, c);
            assert(cols0[ci].component_id == c);
            lemma_the_col_is(cols1, c, ci);
            lemma_index_of_is(comps, c, i);
            assert(cols1[ci].values@ == cols0[ci].values@.push(vals[i]));
            assert(cols0[ci].values@.len() == nrows);
            assert(cols1[ci].values@[nrows] == vals[i]);
            assert(cols1[ci].ticks@[nrows] == tick);
            assert(w1.archetypes@[t].table_id == t);
        } else {
            let es1 = w1.sparse_sets@[c.id as int].entries@;
            let es0 = w0.sparse_sets@[c.id as int].entries@;
            assert(exists|j: int| 0 <= j < m && (#[trigger] comps[j]).id == c.id) by {
                assert(comps[i].id == c.id);
            }
            let j = choose|j: int| 0 <= j < m && (#[trigger] comps[j]).id == c.id;
            assert forall|j2: int, j3: int| 0 <= j2 < j3 < m implies (#[trigger] comps[j2]).id != (
            #[trigger] comps[j3]).id by {
                assert(comps[j2].id < comps[j3].id);
            }
            assert(j == i);
            assert(es1 == es0.push(SparseEntry { entity: e, value: vals[i], ticks: tick }));
            assert(es1[es1.len() - 1].entity == e);
            assert forall|k1: int, k2: int| 0 <= k1 < k2 < es1.len() implies (
            #[trigger] es1[k1]).entity != (#[trigger] es1[k2]).entity by {
                assert(w1.sparse_sets_wf());
            }
            lemma_the_entry_is(es1, e, es1.len() - 1);
        }
    }
}

/// One old slot is untouched by the row insertion.
proof fn lemma_slot_preserved(
    w0: World,
    w1: World,
    t: int,
    vals: Seq<u64>,
    e: Entity,
    tick: ComponentTicks,
    a: int,
    row: int,
    c: ComponentId,
)
    requires
        w0.wf(),
        w1.wf(),
        0 <= t < w0.archetypes@.len(),
        w0.spec_pos_valid(a, row),
        w0.archetypes@[a].spec_has(c),
        forall|c2: int, k: int|
            0 <= c2 < w0.sparse_sets@.len() && 0 <= k < w0.sparse_sets@[c2].entries@.len() ==> (
            #[trigger] w0.sparse_sets@[c2].entries@[k]).entity != e,
        w1.components@ == w0.components@,
        w1.archetypes@.len() == w0.archetypes@.len(),
        forall|a2: int|
            0 <= a2 < w0.archetypes@.len() && a2 != t ==> #[trigger] w1.archetypes@[a2]
                == w0.archetypes@[a2],
        w1.archetypes@[t].table_id == w0.archetypes@[t].table_id,
        w1.archetypes@[t].components@ == w0.archetypes@[t].components@,
        w1.archetypes@[t].entities@ == w0.archetypes@[t].entities@.push(e),
        w1.tables@.len() == w0.tables@.len(),
        forall|t2: int|
            0 <= t2 < w0.tables@.len() && t2 != t ==> #[trigger] w1.tables@[t2]
                == w0.tables@[t2],
        w1.tables@[t].columns@.len() == w0.tables@[t].columns@.len(),
        forall|ci: int|
            0 <= ci < w0.tables@[t].columns@.len() ==> {
                &&& (#[trigger] w1.tables@[t].columns@[ci]).component_id
                    == w0.tables@[t].columns@[ci].component_id
                &&& w1.tables@[t].columns@[ci].values@ == w0.tables@[t].columns@[ci].values@.push(
                    vals[spec_index_of(
                        w0.archetypes@[t].components@,
                        w0.tables@[t].columns@[ci].component_id,
                    )],
                )
                &&& w1.tables@[t].columns@[ci].ticks@ == w0.tables@[t].columns@[ci].ticks@.push(
                    tick,
                )
            },
        w1.sparse_sets@.len() == w0.sparse_sets@.len(),
        forall|c2: int|
            0 <= c2 < w1.sparse_sets@.len() ==> {
                ||| (#[trigger] w1.sparse_sets@[c2]) == w0.sparse_sets@[c2]
                ||| exists|v: u64|
                    w1.sparse_sets@[c2].entries@ == w0.sparse_sets@[c2].entries@.push(
                        SparseEntry { entity: e, value: v, ticks: tick },
                    )
            },
    ensures
        w1.spec_slot_value(a, row, c) == w0.spec_slot_value(a, row, c),
        w1.spec_slot_ticks(a, row, c) == w0.spec_slot_ticks(a, row, c),
        w1.spec_entity_at(a, row) == w0.spec_entity_at(a, row),
{
    assert(w0.arch_components_wf(a));
    assert(w0.arch_table_wf(a));
    assert(w0.arch_sparse_wf(a));
    assert(w1.arch_components_wf(a));
    assert(w1.arch_table_wf(a));
    let e2 = w0.spec_entity_at(a, row);
    if a == t {
        assert(w1.spec_entity_at(a, row) == e2);
    } else {
        assert(w1.archetypes@[a] == w0.archetypes@[a]);
    }
    if w0.spec_storage(c) is Table {
        let tb = w0.archetypes@[a].table_id as int;
        assert(tb == a);
        let cols0 = w0.tables@[a].columns@;
        let cols1 = w1.tables@[a].columns@;
        let idx = choose|i: int|
            0 <= i < w0.archetypes@[a].components@.len() && w0.archetypes@[a].components@[i] == c;
        assert(spec_has_col(cols0, c));
        let ci = spec_the_col(cols0, c);
        assert(cols0[ci].component_id == c);
        if a == t {
            lemma_the_col_is(cols1, c, ci);
            assert(cols1[ci].values@[row] == cols0[ci].values@[row]);
            assert(cols1[ci].ticks@[row] == cols0[ci].ticks@[row]);
        } else {
            assert(cols1 == cols0);
        }
    } else {
        let es0 = w0.sparse_sets@[c.id as int].entries@;
        let es1 = w1.sparse_sets@[c.id as int].entries@;
        let idx = choose|i: int|
            0 <= i < w0.archetypes@[a].components@.len() && w0.archetypes@[a].components@[i] == c;
        assert(spec_has_entry(es0, e2));
        let k = spec_the_entry(es0, e2);
        assert(es0[k].entity == e2);
        assert(es1[k] == es0[k]) by {
            assert(0 <= c.id < w1.sparse_sets@.len());
            if w1.sparse_sets@[c.id as int] != w0.sparse_sets@[c.id as int] {
                let v = choose|v: u64|
                    w1.sparse_sets@[c.id as int].entries@
                        == w0.sparse_sets@[c.id as int].entries@.push(
                        SparseEntry { entity: e, value: v, ticks: tick },
                    );
                assert(es1 == es0.push(SparseEntry { entity: e, value: v, ticks: tick }));
            }
        }
        assert forall|k1: int, k2: int| 0 <= k1 < k2 < es1.len() implies (
        #[trigger] es1[k1]).entity != (#[trigger] es1[k2]).entity by {
            assert(w1.sparse_sets_wf());
        }
        lemma_the_entry_is(es1, e2, k);
    }
}

/// Store extension is reflexive over a pure growth that leaves every old
/// archetype, table and sparse set untouched.
proof fn lemma_extends_when_untouched(w0: World, w1: World)
    requires
        w0.wf(),
        w1.id == w0.id,
        w1.components@ == w0.components@,
        w0.archetypes@.len() <= w1.archetypes@.len(),
        forall|a: int|
            0 <= a < w0.archetypes@.len() ==> #[trigger] w1.archetypes@[a] == w0.archetypes@[a],
        w0.tables@.len() == w0.archetypes@.len(),
        forall|t2: int|
            0 <= t2 < w0.tables@.len() ==> #[trigger] w1.tables@[t2] == w0.tables@[t2],
        w1.sparse_sets@ == w0.sparse_sets@,
    ensures
        spec_store_extends(w0, w1),
{
    assert forall|a: int, row: int| w0.spec_pos_valid(a, row) implies #[trigger] w1.spec_entity_at(
        a,
        row,
    ) == w0.spec_entity_at(a, row) by {
        assert(w1.archetypes@[a] == w0.archetypes@[a]);
    }
    assert forall|a: int, row: int, c: ComponentId|
        w0.spec_pos_valid(a, row) && w0.archetypes@[a].spec_has(c) implies {
        &&& #[trigger] w1.spec_slot_value(a, row, c) == w0.spec_slot_value(a, row, c)
        &&& w1.spec_slot_ticks(a, row, c) == w0.spec_slot_ticks(a, row, c)
    } by {
        assert(w0.arch_components_wf(a));
        assert(w0.arch_table_wf(a));
        assert(w1.archetypes@[a] == w0.archetypes@[a]);
        assert(w1.tables@[a] == w0.tables@[a]);
    }
}

/// Raising the entity allocation watermark alone preserves well-formedness.
proof fn lemma_wf_bump_next(w0: World, w1: World)
    requires
        w0.wf(),
        w1 == (World { next_entity_index: w1.next_entity_index, ..w0 }),
        w1.next_entity_index >= w0.next_entity_index,
    ensures
        w1.wf(),
{
    assert(w1.sparse_sets_wf()) by {
        assert forall|c: int, k: int|
            0 <= c < w1.sparse_sets@.len() && 0 <= k < w1.sparse_sets@[c].entries@.len() implies (
        #[trigger] w1.sparse_sets@[c].entries@[k]).entity.index < w1.next_entity_index by {
            assert(w0.sparse_sets@[c].entries@[k].entity.index < w0.next_entity_index);
        }
    }
    assert(w1.entities_wf()) by {
        assert forall|a: int, row: int| w1.spec_pos_valid(a, row) implies (
        #[trigger] w1.spec_entity_at(a, row)).index < w1.next_entity_index by {
            assert(w0.spec_entity_at(a, row).index < w0.next_entity_index);
        }
        assert forall|a1: int, row1: int, a2: int, row2: int|
            w1.spec_pos_valid(a1, row1) && w1.spec_pos_valid(a2, row2) && !(a1 == a2 && row1
                == row2) implies #[trigger] w1.spec_entity_at(a1, row1)
            != #[trigger] w1.spec_entity_at(a2, row2) by {
            assert(w0.spec_entity_at(a1, row1) != w0.spec_entity_at(a2, row2));
        }
    }
    assert forall|a: int| 0 <= a < w1.archetypes@.len() implies {
        &&& #[trigger] w1.arch_components_wf(a)
        &&& w1.arch_table_wf(a)
        &&& w1.arch_sparse_wf(a)
    } by {
        assert(w0.arch_components_wf(a));
        assert(w0.arch_table_wf(a));
        assert(w0.arch_sparse_wf(a));
    }
}

/// Store extension composes.
pub proof fn lemma_extends_trans(w0: World, w1: World, w2: World)
    requires
        spec_store_extends(w0, w1),
        spec_store_extends(w1, w2),
    ensures
        spec_store_extends(w0, w2),
{
    assert forall|a: int, row: int| w0.spec_pos_valid(a, row) implies #[trigger] w2.spec_entity_at(
        a,
        row,
    ) == w0.spec_entity_at(a, row) by {
        assert(w1.spec_pos_valid(a, row));
        assert(w1.spec_entity_at(a, row) == w0.spec_entity_at(a, row));
    }
    assert forall|a: int, row: int, c: ComponentId|
        w0.spec_pos_valid(a, row) && w0.archetypes@[a].spec_has(c) implies {
        &&& #[trigger] w2.spec_slot_value(a, row, c) == w0.spec_slot_value(a, row, c)
        &&& w2.spec_slot_ticks(a, row, c) == w0.spec_slot_ticks(a, row, c)
    } by {
        assert(w1.spec_pos_valid(a, row));
        assert(w1.archetypes@[a].spec_has(c));
        assert(w1.spec_slot_value(a, row, c) == w0.spec_slot_value(a, row, c));
        assert(w1.spec_slot_ticks(a, row, c) == w0.spec_slot_ticks(a, row, c));
    }
}

/// The unique index of `c` in a duplicate-free composition.
pub open spec fn spec_index_of(comps: Seq<ComponentId>, c: ComponentId) -> int {
    choose|j: int| 0 <= j < comps.len() && comps[j] == c
}

/// Any index holding `c` in a strictly sorted composition is the chosen one.
pub proof fn lemma_index_of_is(comps: Seq<ComponentId>, c: ComponentId, j: int)
    requires
        0 <= j < comps.len(),
        comps[j] == c,
        forall|i1: int, i2: int|
            0 <= i1 < i2 < comps.len() ==> (#[trigger] comps[i1]).id < (#[trigger] comps[i2]).id,
    ensures
        spec_index_of(comps, c) == j,
{
    assert(0 <= j < comps.len() && comps[j] == c);
    let j2 = spec_index_of(comps, c);
    if j2 != j {
        if j2 < j {
            assert(comps[j2].id < comps[j].id);
        } else {
            assert(comps[j].id < comps[j2].id);
        }
    }
}

impl World {
    /// Is `c` a field the registry knows?
    pub open spec fn spec_known(self, c: ComponentId) -> bool {
        c.id < self.components@.len()
    }

    /// The storage kind the registry records for `c`.
    pub open spec fn spec_storage(self, c: ComponentId) -> StorageType {
        self.components@[c.id as int].storage_type
    }

    /// The entity at a given archetype and row.
    pub open spec fn spec_entity_at(self, a: int, row: int) -> Entity {
        self.archetypes@[a].entities@[row]
    }

    /// `(a, row)` denotes a real position of the store.
    pub open spec fn spec_pos_valid(self, a: int, row: int) -> bool {
        0 <= a < self.archetypes@.len() && 0 <= row < self.archetypes@[a].entities@.len()
    }

    /// The value of field `c` for the entity at `(a, row)`.
    pub open spec fn spec_slot_value(self, a: int, row: int, c: ComponentId) -> u64 {
        if self.spec_storage(c) is Table {
            let cols = self.tables@[self.archetypes@[a].table_id as int].columns@;
            cols[spec_the_col(cols, c)].values@[row]
        } else {
            let entries = self.sparse_sets@[c.id as int].entries@;
            entries[spec_the_entry(entries, self.spec_entity_at(a, row))].value
        }
    }

    /// The change metadata of field `c` for the entity at `(a, row)`.
    pub open spec fn spec_slot_ticks(self, a: int, row: int, c: ComponentId) -> ComponentTicks {
        if self.spec_storage(c) is Table {
            let cols = self.tables@[self.archetypes@[a].table_id as int].columns@;
            cols[spec_the_col(cols, c)].ticks@[row]
        } else {
            let entries = self.sparse_sets@[c.id as int].entries@;
            entries[spec_the_entry(entries, self.spec_entity_at(a, row))].ticks
        }
    }

    /// The composition of archetype `a` is made of known fields, listed in
    /// strictly increasing id order (so every field appears at most once).
    pub open spec fn arch_components_wf(self, a: int) -> bool {
        let comps = self.archetypes@[a].components@;
        &&& forall|i: int|
            0 <= i < comps.len() ==> (#[trigger] comps[i]).id < self.components@.len()
        &&& forall|i: int, j: int|
            0 <= i < j < comps.len() ==> (#[trigger] comps[i]).id < (#[trigger] comps[j]).id
    }

    /// Archetype `a` owns table `a`, whose columns are exactly its
    /// table-backed fields, each sized to the entity count.
    pub open spec fn arch_table_wf(self, a: int) -> bool {
        let arch = self.archetypes@[a];
        let cols = self.tables@[a].columns@;
        &&& arch.table_id == a
        &&& forall|ci: int, cj: int|
            0 <= ci < cj < cols.len() ==> (#[trigger] cols[ci]).component_id != (
            #[trigger] cols[cj]).component_id
        &&& forall|ci: int|
            0 <= ci < cols.len() ==> {
                &&& arch.spec_has((#[trigger] cols[ci]).component_id)
                &&& cols[ci].component_id.id < self.components@.len()
                &&& self.spec_storage(cols[ci].component_id) is Table
                &&& cols[ci].values@.len() == arch.entities@.len()
                &&& cols[ci].ticks@.len() == arch.entities@.len()
            }
        &&& forall|i: int|
            0 <= i < arch.components@.len() && self.spec_storage(
                #[trigger] arch.components@[i],
            ) is Table ==> spec_has_col(cols, arch.components@[i])
    }

    /// Every sparse-backed field of archetype `a` has an entry for each of
    /// the archetype's entities.
    pub open spec fn arch_sparse_wf(self, a: int) -> bool {
        let arch = self.archetypes@[a];
        forall|i: int, row: int|
            0 <= i < arch.components@.len() && 0 <= row < arch.entities@.len()
                && self.spec_storage(#[trigger] arch.components@[i]) is SparseSet
                ==> spec_has_entry(
                self.sparse_sets@[arch.components@[i].id as int].entries@,
                #[trigger] arch.entities@[row],
            )
    }

    /// One sparse set per registered field, keyed by distinct entities.
    pub open spec fn sparse_sets_wf(self) -> bool {
        &&& self.sparse_sets@.len() == self.components@.len()
        &&& forall|c: int|
            0 <= c < self.sparse_sets@.len() ==> (#[trigger] self.sparse_sets@[c]).component_id.id
                == c
        &&& forall|c: int, k1: int, k2: int|
            0 <= c < self.sparse_sets@.len() && 0 <= k1 < k2 < self.sparse_sets@[c].entries@.len()
                ==> (#[trigger] self.sparse_sets@[c].entries@[k1]).entity != (
            #[trigger] self.sparse_sets@[c].entries@[k2]).entity
        &&& forall|c: int, k: int|
            0 <= c < self.sparse_sets@.len() && 0 <= k < self.sparse_sets@[c].entries@.len() ==> (
            #[trigger] self.sparse_sets@[c].entries@[k]).entity.index < self.next_entity_index
    }

    /// Every entity sits in exactly one position, and below the allocation
    /// watermark.
    pub open spec fn entities_wf(self) -> bool {
        &&& forall|a: int, row: int|
            self.spec_pos_valid(a, row) ==> (#[trigger] self.spec_entity_at(a, row)).index
                < self.next_entity_index
        &&& forall|a1: int, row1: int, a2: int, row2: int|
            self.spec_pos_valid(a1, row1) && self.spec_pos_valid(a2, row2) && !(a1 == a2 && row1
                == row2) ==> #[trigger] self.spec_entity_at(a1, row1)
                != #[trigger] self.spec_entity_at(a2, row2)
    }

    /// Compositions are distinct: a composition is created at most once.
    pub open spec fn arch_distinct_wf(self) -> bool {
        forall|a1: int, a2: int|
            0 <= a1 < a2 < self.archetypes@.len()
                ==> (#[trigger] self.archetypes@[a1]).components@
                != (#[trigger] self.archetypes@[a2]).components@
    }

    /// The store's full structural invariant.
    pub open spec fn wf(self) -> bool {
        &&& self.tables@.len() == self.archetypes@.len()
        &&& self.sparse_sets_wf()
        &&& self.entities_wf()
        &&& self.arch_distinct_wf()
        &&& forall|a: int|
            0 <= a < self.archetypes@.len() ==> {
                &&& #[trigger] self.arch_components_wf(a)
                &&& self.arch_table_wf(a)
                &&& self.arch_sparse_wf(a)
            }
    }

    /// A fresh, empty store under a caller-chosen identity. The write
    /// counter starts at 1 so that everything created before the first
    /// iteration counts as added in the window `(0, 1]`.
    pub fn new(id: u64) -> (w: World)
        ensures
            w.wf(),
            w.id == id,
            w.components@.len() == 0,
            w.archetypes@.len() == 0,
            w.tables@.len() == 0,
            w.sparse_sets@.len() == 0,
            w.next_entity_index == 0,
            w.last_change_tick == 0,
            w.change_tick == 1,
    {
        World {
            id,
            components: Vec::new(),
            archetypes: Vec::new(),
            tables: Vec::new(),
            sparse_sets: Vec::new(),
            next_entity_index: 0,
            last_change_tick: 0,
            change_tick: 1,
        }
    }

    /// Register a new field type and return its stable id.
    pub fn register_component(&mut self, storage_type: StorageType) -> (c: ComponentId)
        requires
            old(self).wf(),
        ensures
            final(self).wf(),
            c.id == old(self).components@.len(),
            final(self).components@ == old(self).components@.push(
                ComponentInfo { storage_type },
            ),
            final(self).archetypes@ == old(self).archetypes@,
            final(self).tables@ == old(self).tables@,
            final(self).id == old(self).id,
            final(self).next_entity_index == old(self).next_entity_index,
            final(self).last_change_tick == old(self).last_change_tick,
            final(self).change_tick == old(self).change_tick,
    {
        let c = ComponentId { id: self.components.len() };
        self.components.push(ComponentInfo { storage_type });
        self.sparse_sets.push(ComponentSparseSet { component_id: c, entries: Vec::new() });
        proof {
            let w0 = *old(self);
            let w1 = *self;
            assert forall|c2: ComponentId| c2.id < w0.components@.len() implies w1.spec_storage(c2)
                == w0.spec_storage(c2) by {
                assert(w1.components@[c2.id as int] == w0.components@[c2.id as int]);
            }
            assert forall|c2: int| 0 <= c2 < w0.sparse_sets@.len() implies #[trigger] w1.sparse_sets@[c2]
                == w0.sparse_sets@[c2] by {}
            assert(w1.sparse_sets_wf()) by {
                assert forall|c2: int| 0 <= c2 < w1.sparse_sets@.len() implies (
                #[trigger] w1.sparse_sets@[c2]).component_id.id == c2 by {
                    if c2 < w0.sparse_sets@.len() {
                        assert(w1.sparse_sets@[c2] == w0.sparse_sets@[c2]);
                    }
                }
                assert forall|c2: int, k1: int, k2: int|
                    0 <= c2 < w1.sparse_sets@.len() && 0 <= k1 < k2
                        < w1.sparse_sets@[c2].entries@.len() implies (
                #[trigger] w1.sparse_sets@[c2].entries@[k1]).entity != (
                #[trigger] w1.sparse_sets@[c2].entries@[k2]).entity by {
                    assert(c2 < w0.sparse_sets@.len());
                    assert(w1.sparse_sets@[c2] == w0.sparse_sets@[c2]);
                }
                assert forall|c2: int, k: int|
                    0 <= c2 < w1.sparse_sets@.len() && 0 <= k
                        < w1.sparse_sets@[c2].entries@.len() implies (
                #[trigger] w1.sparse_sets@[c2].entries@[k]).entity.index
                    < w1.next_entity_index by {
                    assert(c2 < w0.sparse_sets@.len());
                    assert(w1.sparse_sets@[c2] == w0.sparse_sets@[c2]);
                }
            }
            assert(w1.entities_wf()) by {
                assert forall|a: int, row: int| w1.spec_pos_valid(a, row) implies (
                #[trigger] w1.spec_entity_at(a, row)).index < w1.next_entity_index by {
                    assert(w0.spec_entity_at(a, row).index < w0.next_entity_index);
                }
                assert forall|a1: int, row1: int, a2: int, row2: int|
                    w1.spec_pos_valid(a1, row1) && w1.spec_pos_valid(a2, row2) && !(a1 == a2
                        && row1 == row2) implies #[trigger] w1.spec_entity_at(a1, row1)
                    != #[trigger] w1.spec_entity_at(a2, row2) by {
                    assert(w0.spec_entity_at(a1, row1) != w0.spec_entity_at(a2, row2));
                }
            }
            assert forall|a: int| 0 <= a < w1.archetypes@.len() implies {
                &&& #[trigger] w1.arch_components_wf(a)
                &&& w1.arch_table_wf(a)
                &&& w1.arch_sparse_wf(a)
            } by {
                assert(w0.arch_components_wf(a));
                assert(w0.arch_table_wf(a));
                assert(w0.arch_sparse_wf(a));
                assert(w1.arch_table_wf(a)) by {
                    let cols = w1.tables@[a].columns@;
                    assert forall|ci: int| 0 <= ci < cols.len() implies {
                        &&& w1.archetypes@[a].spec_has((#[trigger] cols[ci]).component_id)
                        &&& cols[ci].component_id.id < w1.components@.len()
                        &&& w1.spec_storage(cols[ci].component_id) is Table
                        &&& cols[ci].values@.len() == w1.archetypes@[a].entities@.len()
                        &&& cols[ci].ticks@.len() == w1.archetypes@[a].entities@.len()
                    } by {
                        assert(w0.spec_storage(cols[ci].component_id) is Table);
                    }
                    assert forall|i: int|
                        0 <= i < w1.archetypes@[a].components@.len() && w1.spec_storage(
                            #[trigger] w1.archetypes@[a].components@[i],
                        ) is Table implies spec_has_col(
                        w1.tables@[a].columns@,
                        w1.archetypes@[a].components@[i],
                    ) by {
                        assert(w0.spec_storage(w0.archetypes@[a].components@[i])
                            == w1.spec_storage(w1.archetypes@[a].components@[i]));
                    }
                }
                assert(w1.arch_sparse_wf(a)) by {
                    assert forall|i: int, row: int|
                        0 <= i < w1.archetypes@[a].components@.len() && 0 <= row
                            < w1.archetypes@[a].entities@.len() && w1.spec_storage(
                            #[trigger] w1.archetypes@[a].components@[i],
                        ) is SparseSet implies spec_has_entry(
                        w1.sparse_sets@[w1.archetypes@[a].components@[i].id as int].entries@,
                        #[trigger] w1.archetypes@[a].entities@[row],
                    ) by {
                        let c2 = w1.archetypes@[a].components@[i];
                        assert(w0.spec_storage(c2) is SparseSet);
                        assert(spec_has_entry(
                            w0.sparse_sets@[c2.id as int].entries@,
                            w0.archetypes@[a].entities@[row],
                        ));
                        assert(w1.sparse_sets@[c2.id as int] == w0.sparse_sets@[c2.id as int]);
                    }
                }
            }
        }
        c
    }

    /// Append a new archetype with composition `comps` and an empty table,
    /// unless one with exactly that composition already exists. Returns the
    /// archetype's index.
    fn ensure_archetype(&mut self, comps: Vec<ComponentId>) -> (t: usize)
        requires
            old(self).wf(),
            forall|i: int, j: int|
                0 <= i < j < comps@.len() ==> comps@[i].id < comps@[j].id,
            forall|i: int|
                0 <= i < comps@.len() ==> (#[trigger] comps@[i]).id < old(
                    self,
                ).components@.len(),
        ensures
            final(self).wf(),
            t == spec_arch_with(*old(self), comps@),
            t < final(self).archetypes@.len(),
            final(self).archetypes@[t as int].components@ == comps@,
            final(self).archetypes@.len() == if t == old(self).archetypes@.len() {
                old(self).archetypes@.len() + 1
            } else {
                old(self).archetypes@.len() + 0
            },
            forall|a: int|
                0 <= a < old(self).archetypes@.len() ==> final(self).archetypes@[a] == old(
                    self,
                ).archetypes@[a],
            forall|t2: int|
                0 <= t2 < old(self).tables@.len() ==> final(self).tables@[t2] == old(
                    self,
                ).tables@[t2],
            t == old(self).archetypes@.len() ==> final(self).archetypes@[t as int].entities@.len()
                == 0,
            final(self).sparse_sets@ == old(self).sparse_sets@,
            final(self).components@ == old(self).components@,
            final(self).id == old(self).id,
            final(self).next_entity_index == old(self).next_entity_index,
            final(self).last_change_tick == old(self).last_change_tick,
            final(self).change_tick == old(self).change_tick,
    {
        let n = self.archetypes.len();
        let mut a: usize = 0;
        while a < n
            invariant
                a <= n,
                n == self.archetypes@.len(),
                *self == *old(self),
                old(self).wf(),
                forall|a2: int| 0 <= a2 < a ==> self.archetypes@[a2].components@ != comps@,
            decreases n - a,
        {
            if components_equal(&self.archetypes[a].components, &comps) {
                proof {
                    lemma_arch_with_is(*self, comps@, a as int);
                }
                return a;
            }
            a = a + 1;
        }
        proof {
            assert(!(exists|a2: int|
                0 <= a2 < self.archetypes@.len() && (#[trigger] self.archetypes@[a2]).components@
                    == comps@));
        }
        let t = self.archetypes.len();
        let mut columns: Vec<Column> = Vec::new();
        let m = comps.len();
        let mut i: usize = 0;
        while i < m
            invariant
                i <= m,
                m == comps@.len(),
                forall|i2: int, j2: int|
                    0 <= i2 < j2 < comps@.len() ==> comps@[i2].id < comps@[j2].id,
                forall|i2: int|
                    0 <= i2 < comps@.len() ==> (#[trigger] comps@[i2]).id
                        < self.components@.len(),
                forall|ci: int|
                    0 <= ci < columns@.len() ==> {
                        &&& exists|j: int|
                            0 <= j < i && comps@[j] == (#[trigger] columns@[ci]).component_id
                        &&& self.spec_storage(columns@[ci].component_id) is Table
                        &&& columns@[ci].values@.len() == 0
                        &&& columns@[ci].ticks@.len() == 0
                    },
                forall|ci: int, cj: int|
                    0 <= ci < cj < columns@.len() ==> (#[trigger] columns@[ci]).component_id != (
                    #[trigger] columns@[cj]).component_id,
                forall|i2: int|
                    0 <= i2 < i && self.spec_storage(#[trigger] comps@[i2]) is Table
                        ==> spec_has_col(columns@, comps@[i2]),
            decreases m - i,
        {
            let c = comps[i];
            let is_table = match self.components[c.id].storage_type {
                StorageType::Table => true,
                StorageType::SparseSet => false,
            };
            if is_table {
                let ghost prev = columns@;
                columns.push(Column { component_id: c, values: Vec::new(), ticks: Vec::new() });
                proof {
                    assert forall|ci: int, cj: int| 0 <= ci < cj < columns@.len() implies (
                    #[trigger] columns@[ci]).component_id != (
                    #[trigger] columns@[cj]).component_id by {
                        if cj == columns@.len() - 1 {
                            let j = choose|j: int|
                                0 <= j < i && comps@[j] == prev[ci].component_id;
                            assert(comps@[j].id < comps@[i as int].id);
                        }
                    }
                    assert forall|i2: int|
                        0 <= i2 < i + 1 && self.spec_storage(#[trigger] comps@[i2]) is Table
                            implies spec_has_col(columns@, comps@[i2]) by {
                        if i2 < i {
                            let ci = choose|ci: int|
                                0 <= ci < prev.len() && prev[ci].component_id == comps@[i2];
                            assert(columns@[ci].component_id == comps@[i2]);
                        } else {
                            assert(columns@[columns@.len() - 1].component_id == comps@[i2]);
                        }
                    }
                }
            }
            i = i + 1;
        }
        let ghost cols_v = columns@;
        let ghost comps_v = comps@;
        self.tables.push(Table { columns });
        self.archetypes.push(Archetype { table_id: t, components: comps, entities: Vec::new() });
        proof {
            let w1 = *self;
            let w0 = *old(self);
            let ti = t as int;
            assert(w1.archetypes@[ti].components@ == comps_v);
            assert(w1.tables@[ti].columns@ == cols_v);
            assert(w1.arch_components_wf(ti));
            assert(w1.arch_table_wf(ti)) by {
                assert forall|ci: int| 0 <= ci < cols_v.len() implies {
                    &&& w1.archetypes@[ti].spec_has((#[trigger] cols_v[ci]).component_id)
                    &&& cols_v[ci].component_id.id < w1.components@.len()
                    &&& w1.spec_storage(cols_v[ci].component_id) is Table
                    &&& cols_v[ci].values@.len() == w1.archetypes@[ti].entities@.len()
                    &&& cols_v[ci].ticks@.len() == w1.archetypes@[ti].entities@.len()
                } by {
                    let j = choose|j: int| 0 <= j < m && comps_v[j] == cols_v[ci].component_id;
                    assert(w1.archetypes@[ti].components@[j] == cols_v[ci].component_id);
                }
            }
            assert(w1.arch_sparse_wf(ti));
            assert forall|a2: int| 0 <= a2 < w1.archetypes@.len() implies {
                &&& #[trigger] w1.arch_components_wf(a2)
                &&& w1.arch_table_wf(a2)
                &&& w1.arch_sparse_wf(a2)
            } by {
                if a2 < w0.archetypes@.len() {
                    assert(w1.archetypes@[a2] == w0.archetypes@[a2]);
                    assert(w1.tables@[a2] == w0.tables@[a2]);
                    assert(w0.arch_components_wf(a2));
                    assert(w0.arch_table_wf(a2));
                    assert(w0.arch_sparse_wf(a2));
                    assert(w1.arch_components_wf(a2));
                    assert(w1.arch_table_wf(a2)) by {
                        assert forall|i2: int|
                            0 <= i2 < w1.archetypes@[a2].components@.len() && w1.spec_storage(
                                #[trigger] w1.archetypes@[a2].components@[i2],
                            ) is Table implies spec_has_col(
                            w1.tables@[a2].columns@,
                            w1.archetypes@[a2].components@[i2],
                        ) by {
                            assert(spec_has_col(
                                w0.tables@[a2].columns@,
                                w0.archetypes@[a2].components@[i2],
                            ));
                        }
                    }
                    assert(w1.arch_sparse_wf(a2)) by {
                        assert forall|i2: int, row: int|
                            0 <= i2 < w1.archetypes@[a2].components@.len() && 0 <= row
                                < w1.archetypes@[a2].entities@.len() && w1.spec_storage(
                                #[trigger] w1.archetypes@[a2].components@[i2],
                            ) is SparseSet implies spec_has_entry(
                            w1.sparse_sets@[w1.archetypes@[a2].components@[i2].id as int].entries@,
                            #[trigger] w1.archetypes@[a2].entities@[row],
                        ) by {
                            assert(spec_has_entry(
                                w0.sparse_sets@[w0.archetypes@[a2].components@[i2].id as int].entries@,
                                w0.archetypes@[a2].entities@[row],
                            ));
                        }
                    }
                }
            }
            assert(w1.entities_wf()) by {
                assert forall|a2: int, row: int| w1.spec_pos_valid(a2, row) implies (
                #[trigger] w1.spec_entity_at(a2, row)).index < w1.next_entity_index by {
                    assert(a2 < w0.archetypes@.len());
                    assert(w0.spec_entity_at(a2, row).index < w0.next_entity_index);
                }
                assert forall|a1: int, row1: int, a2: int, row2: int|
                    w1.spec_pos_valid(a1, row1) && w1.spec_pos_valid(a2, row2) && !(a1 == a2 && row1
                        == row2) implies #[trigger] w1.spec_entity_at(a1, row1)
                    != #[trigger] w1.spec_entity_at(a2, row2) by {
                    assert(a1 < w0.archetypes@.len() && a2 < w0.archetypes@.len());
                    assert(w0.spec_entity_at(a1, row1) != w0.spec_entity_at(a2, row2));
                }
            }
            assert(w1.arch_distinct_wf());
            assert(w1.wf());
        }
        t
    }

    /// Append one row for the fresh entity `e` to archetype `t`: one value
    /// per field of the composition, each stamped with the current write
    /// tick as both its added and its changed tick.
    fn push_row(&mut self, t: usize, vals: &Vec<u64>, e: Entity)
        requires
            old(self).wf(),
            t < old(self).archetypes@.len(),
            vals@.len() == old(self).archetypes@[t as int].components@.len(),
            forall|a: int, row: int|
                old(self).spec_pos_valid(a, row) ==> #[trigger] old(self).spec_entity_at(a, row)
                    != e,
            forall|c: int, k: int|
                0 <= c < old(self).sparse_sets@.len() && 0 <= k
                    < old(self).sparse_sets@[c].entries@.len() ==> (#[trigger] old(
                    self,
                ).sparse_sets@[c].entries@[k]).entity != e,
            e.index < old(self).next_entity_index,
        ensures
            final(self).wf(),
            spec_store_extends(*old(self), *final(self)),
            final(self).archetypes@.len() == old(self).archetypes@.len(),
            final(self).archetypes@[t as int].entities@ == old(
                self,
            ).archetypes@[t as int].entities@.push(e),
            forall|a: int|
                0 <= a < old(self).archetypes@.len() && a != t ==> final(self).archetypes@[a]
                    == old(self).archetypes@[a],
            final(self).next_entity_index == old(self).next_entity_index,
            final(self).last_change_tick == old(self).last_change_tick,
            final(self).change_tick == old(self).change_tick,
            forall|i: int|
                0 <= i < old(self).archetypes@[t as int].components@.len() ==> {
                    let c = #[trigger] old(self).archetypes@[t as int].components@[i];
                    let row = old(self).archetypes@[t as int].entities@.len() as int;
                    &&& final(self).spec_slot_value(t as int, row, c) == vals@[i]
                    &&& final(self).spec_slot_ticks(t as int, row, c) == (ComponentTicks {
                        added: old(self).change_tick,
                        changed: old(self).change_tick,
                    })
                },
    {
        let ghost w0 = *old(self);
        let ghost comps = w0.archetypes@[t as int].components@;
        let tick = ComponentTicks::new(self.change_tick);
        let m = self.archetypes[t].components.len();
        let mut i: usize = 0;
        while i < m
            invariant
                i <= m,
                w0 == *old(self),
                w0.wf(),
                t < w0.archetypes@.len(),
                comps == w0.archetypes@[t as int].components@,
                m == comps.len(),
                vals@.len() == m,
                tick == (ComponentTicks { added: w0.change_tick, changed: w0.change_tick }),
                self.id == w0.id,
                self.components@ == w0.components@,
                self.archetypes@ == w0.archetypes@,
                self.next_entity_index == w0.next_entity_index,
                self.last_change_tick == w0.last_change_tick,
                self.change_tick == w0.change_tick,
                self.tables@.len() == w0.tables@.len(),
                self.sparse_sets@.len() == w0.sparse_sets@.len(),
                forall|t2: int|
                    0 <= t2 < self.tables@.len() && t2 != t ==> self.tables@[t2]
                        == w0.tables@[t2],
                self.tables@[t as int].columns@.len() == w0.tables@[t as int].columns@.len(),
                forall|ci: int|
                    0 <= ci < w0.tables@[t as int].columns@.len() ==> spec_col_pushed(
                        w0.tables@[t as int].columns@[ci],
                        #[trigger] self.tables@[t as int].columns@[ci],
                        comps,
                        vals@,
                        i as int,
                        tick,
                    ),
                forall|c: int|
                    0 <= c < self.sparse_sets@.len() ==> (#[trigger] self.sparse_sets@[c]).component_id
                        == w0.sparse_sets@[c].component_id,
                forall|c: int|
                    0 <= c < self.sparse_sets@.len() ==> {
                        if w0.components@[c].storage_type is SparseSet && (exists|j: int|
                            0 <= j < i && (#[trigger] comps[j]).id == c) {
                            {
                                let j = choose|j: int| 0 <= j < i && (#[trigger] comps[j]).id == c;
                                (#[trigger] self.sparse_sets@[c]).entries@
                                    == w0.sparse_sets@[c].entries@.push(
                                    SparseEntry { entity: e, value: vals@[j], ticks: tick },
                                )
                            }
                        } else {
                            self.sparse_sets@[c] == w0.sparse_sets@[c]
                        }
                    },
            decreases m - i,
        {
            let c = self.archetypes[t].components[i];
            let v = vals[i];
            proof {
                assert(w0.arch_components_wf(t as int));
                assert(w0.arch_table_wf(t as int));
                assert(comps[i as int] == c);
                assert(c.id < w0.components@.len());
                assert forall|j: int, j2: int| 0 <= j < j2 < comps.len() implies comps[j]
                    != comps[j2] && comps[j].id != comps[j2].id by {
                    assert(comps[j].id < comps[j2].id);
                }
            }
            let is_table = match self.components[c.id].storage_type {
                StorageType::Table => true,
                StorageType::SparseSet => false,
            };
            if is_table {
                let ghost before = self.tables@[t as int].columns@;
                let r = self.tables[t].column_index(c);
                match r {
                    Some(ci) => {
                        let tb = &mut self.tables[t];
                        let col = &mut tb.columns[ci];
                        col.values.push(v);
                        col.ticks.push(tick);
                        proof {
                            let after = self.tables@[t as int].columns@;
                            assert forall|ci2: int|
                                0 <= ci2 < w0.tables@[t as int].columns@.len() implies spec_col_pushed(
                                w0.tables@[t as int].columns@[ci2],
                                #[trigger] after[ci2],
                                comps,
                                vals@,
                                i + 1,
                                tick,
                            ) by {
                                assert(spec_col_pushed(
                                    w0.tables@[t as int].columns@[ci2],
                                    before[ci2],
                                    comps,
                                    vals@,
                                    i as int,
                                    tick,
                                ));
                                let oldc = w0.tables@[t as int].columns@[ci2];
                                if ci2 == ci {
                                    assert(oldc.component_id == c);
                                    assert(!(exists|j: int|
                                        0 <= j < i && comps[j] == oldc.component_id));
                                    assert(comps[i as int] == oldc.component_id);
                                    let j = choose|j: int|
                                        0 <= j < i + 1 && comps[j] == oldc.component_id;
                                    assert(j == i);
                                } else {
                                    assert(after[ci2] == before[ci2]);
                                    if exists|j: int| 0 <= j < i + 1 && comps[j]
                                        == oldc.component_id {
                                        let j = choose|j: int|
                                            0 <= j < i + 1 && comps[j] == oldc.component_id;
                                        if j == i {
                                            assert(before[ci2].component_id == oldc.component_id);
                                            assert(before[ci as int].component_id == c);
                                            assert(false);
                                        }
                                        assert(exists|j2: int|
                                            0 <= j2 < i && comps[j2] == oldc.component_id);
                                        let j2 = choose|j2: int|
                                            0 <= j2 < i && comps[j2] == oldc.component_id;
                                        assert(j2 == j);
                                    }
                                }
                            }
                        }
                    },
                    None => {
                        proof {
                            assert(w0.arch_table_wf(t as int));
                            assert(spec_has_col(w0.tables@[t as int].columns@, c));
                            let ci = spec_the_col(w0.tables@[t as int].columns@, c);
                            assert(before[ci].component_id == c);
                            assert(false);
                        }
                        vstd::pervasive::unreached()
                    },
                }
            } else {
                let ss = &mut self.sparse_sets[c.id];
                ss.entries.push(SparseEntry { entity: e, value: v, ticks: tick });
                proof {
                    assert forall|c2: int| 0 <= c2 < self.sparse_sets@.len() implies {
                        if w0.components@[c2].storage_type is SparseSet && (exists|j: int|
                            0 <= j < i + 1 && (#[trigger] comps[j]).id == c2) {
                            {
                                let j = choose|j: int|
                                    0 <= j < i + 1 && (#[trigger] comps[j]).id == c2;
                                (#[trigger] self.sparse_sets@[c2]).entries@
                                    == w0.sparse_sets@[c2].entries@.push(
                                    SparseEntry { entity: e, value: vals@[j], ticks: tick },
                                )
                            }
                        } else {
                            self.sparse_sets@[c2] == w0.sparse_sets@[c2]
                        }
                    } by {
                        if c2 == c.id {
                            assert(!(exists|j: int| 0 <= j < i && (#[trigger] comps[j]).id == c2));
                            assert(comps[i as int].id == c2);
                            let j = choose|j: int| 0 <= j < i + 1 && (#[trigger] comps[j]).id == c2;
                            assert(j == i);
                        } else {
                            if exists|j: int| 0 <= j < i + 1 && (#[trigger] comps[j]).id == c2 {
                                let j = choose|j: int|
                                    0 <= j < i + 1 && (#[trigger] comps[j]).id == c2;
                                assert(j != i);
                                assert(exists|j2: int| 0 <= j2 < i && (#[trigger] comps[j2]).id == c2);
                                let j2 = choose|j2: int| 0 <= j2 < i && (#[trigger] comps[j2]).id == c2;
                                assert(j2 == j);
                            }
                        }
                    }
                }
            }
            i = i + 1;
        }
        let arch = &mut self.archetypes[t];
        arch.entities.push(e);
        proof {
            lemma_push_row_post(w0, *self, t as int, vals@, e, tick);
        }
    }

    /// Create one entity whose composition is exactly `comps` (given in
    /// strictly increasing id order) with one value per field. The archetype
    /// for the composition is created on first use; every written slot is
    /// stamped with the current write tick.
    pub fn spawn(&mut self, comps: Vec<ComponentId>, vals: Vec<u64>) -> (e: Entity)
        requires
            old(self).wf(),
            comps@.len() == vals@.len(),
            forall|i: int, j: int|
                0 <= i < j < comps@.len() ==> comps@[i].id < comps@[j].id,
            forall|i: int|
                0 <= i < comps@.len() ==> (#[trigger] comps@[i]).id < old(
                    self,
                ).components@.len(),
            old(self).next_entity_index < u32::MAX,
        ensures
            final(self).wf(),
            spec_store_extends(*old(self), *final(self)),
            e == (Entity { index: old(self).next_entity_index, generation: 0 }),
            final(self).next_entity_index == old(self).next_entity_index + 1,
            final(self).last_change_tick == old(self).last_change_tick,
            final(self).change_tick == old(self).change_tick,
            ({
                let t = spec_arch_with(*old(self), comps@);
                let w0 = *old(self);
                let w1 = *final(self);
                let row = if t < w0.archetypes@.len() {
                    w0.archetypes@[t].entities@.len() as int
                } else {
                    0
                };
                &&& 0 <= t < w1.archetypes@.len()
                &&& w1.archetypes@.len() == if t == w0.archetypes@.len() {
                    w0.archetypes@.len() + 1
                } else {
                    w0.archetypes@.len() + 0
                }
                &&& w1.archetypes@[t].components@ == comps@
                &&& w1.archetypes@[t].entities@.len() == row + 1
                &&& w1.spec_entity_at(t, row) == e
                &&& forall|a: int|
                    0 <= a < w0.archetypes@.len() && a != t ==> #[trigger] w1.archetypes@[a]
                        == w0.archetypes@[a]
                &&& forall|i: int|
                    0 <= i < comps@.len() ==> {
                        &&& w1.spec_slot_value(t, row, #[trigger] comps@[i]) == vals@[i]
                        &&& w1.spec_slot_ticks(t, row, comps@[i]) == (ComponentTicks {
                            added: w0.change_tick,
                            changed: w0.change_tick,
                        })
                    }
            }),
    {
        let ghost w0 = *old(self);
        let ghost comps_v = comps@;
        let e = Entity { index: self.next_entity_index, generation: 0 };
        self.next_entity_index = self.next_entity_index + 1;
        let ghost w_mid = *self;
        proof {
            lemma_wf_bump_next(w0, w_mid);
            lemma_extends_when_untouched(w0, w_mid);
        }
        let t = self.ensure_archetype(comps);
        let ghost w_ea = *self;
        proof {
            lemma_extends_when_untouched(w_mid, w_ea);
            // relate the archetype index to the original store
            if t < w0.archetypes@.len() {
                assert(w_ea.archetypes@[t as int] == w0.archetypes@[t as int]);
                lemma_arch_with_is(w0, comps_v, t as int);
            } else {
                assert(t == w_mid.archetypes@.len());
                assert(spec_arch_with(w_mid, comps_v) == t);
                if exists|a: int|
                    0 <= a < w0.archetypes@.len() && (#[trigger] w0.archetypes@[a]).components@
                        == comps_v {
                    let a = choose|a: int|
                        0 <= a < w0.archetypes@.len() && (#[trigger] w0.archetypes@[a]).components@
                            == comps_v;
                    assert(w_mid.archetypes@[a].components@ == comps_v);
                    lemma_arch_with_is(w_mid, comps_v, a);
                    assert(false);
                }
            }
            assert(t == spec_arch_with(w0, comps_v));
            // the fresh entity is nowhere in the store yet
            assert forall|a: int, row: int| w_ea.spec_pos_valid(a, row) implies
                #[trigger] w_ea.spec_entity_at(a, row) != e by {
                if a < w0.archetypes@.len() {
                    assert(w_ea.archetypes@[a] == w0.archetypes@[a]);
                    assert(w0.spec_entity_at(a, row).index < w0.next_entity_index);
                } else {
                    assert(w_ea.archetypes@[a].entities@.len() == 0);
                }
            }
            assert forall|c: int, k: int|
                0 <= c < w_ea.sparse_sets@.len() && 0 <= k
                    < w_ea.sparse_sets@[c].entries@.len() implies (
            #[trigger] w_ea.sparse_sets@[c].entries@[k]).entity != e by {
                assert(w0.sparse_sets@[c].entries@[k].entity.index < w0.next_entity_index);
            }
        }
        self.push_row(t, &vals, e);
        proof {
            lemma_extends_trans(w0, w_mid, w_ea);
            lemma_extends_trans(w0, w_ea, *self);
            let row = if t < w0.archetypes@.len() {
                w0.archetypes@[t as int].entities@.len() as int
            } else {
                0
            };
            assert(w_ea.archetypes@[t as int].entities@.len() == row) by {
                if t < w0.archetypes@.len() {
                    assert(w_ea.archetypes@[t as int] == w0.archetypes@[t as int]);
                }
            }
            assert(self.archetypes@[t as int].entities@ == w_ea.archetypes@[t as int].entities@.push(
                e,
            ));
            assert forall|a: int| 0 <= a < w0.archetypes@.len() && a != t implies
                #[trigger] self.archetypes@[a] == w0.archetypes@[a] by {
                assert(w_ea.archetypes@[a] == w0.archetypes@[a]);
                assert(self.archetypes@[a] == w_ea.archetypes@[a]);
            }
            assert forall|i: int| 0 <= i < comps_v.len() implies {
                &&& self.spec_slot_value(t as int, row, #[trigger] comps_v[i]) == vals@[i]
                &&& self.spec_slot_ticks(t as int, row, comps_v[i]) == (ComponentTicks {
                    added: w0.change_tick,
                    changed: w0.change_tick,
                })
            } by {
                assert(w_ea.archetypes@[t as int].components@[i] == comps_v[i]);
            }
        }
        e
    }

    /// Advance the store's current write tick by one, wrapping.
    pub fn increment_change_tick(&mut self)
        ensures
            *final(self) == (World {
                change_tick: if old(self).change_tick == u32::MAX {
                    0
                } else {
                    (old(self).change_tick + 1) as u32
                },
                ..*old(self)
            }),
    {
        self.change_tick = if self.change_tick == u32::MAX {
            0
        } else {
            self.change_tick + 1
        };
    }

    /// Record the tick an iteration caller last ran at.
    pub fn set_last_change_tick(&mut self, t: u32)
        ensures
            *final(self) == (World { last_change_tick: t, ..*old(self) }),
    {
        self.last_change_tick = t;
    }
}

} // verus!
