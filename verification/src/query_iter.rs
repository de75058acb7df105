//! Query iteration: walking the matched archetypes of a store, evaluating
//! per-row filters, fetching the requested fields, and recording write
//! ticks. The specification relates the yielded sequence and the store's
//! tick state after iteration to the store as it was when iteration began.

use vstd::prelude::*;

use crate::dynamic_query::{spec_fetch_comp, spec_fetch_matches, spec_filter_comp,
    spec_filter_matches, spec_query_matches, spec_writes_comp, FetchKind, FetchResult, FilterKind};
use crate::tick::{spec_tick_newer_than, ComponentTicks};
use crate::world::{spec_the_col, spec_the_entry, ComponentId, SparseEntry, StorageType, World};

verus! {

/// Everything of the store except the `changed` fields of slot metadata:
/// identity, registry, compositions, entities, values, creation ticks.
pub open spec fn spec_skeleton_same(w0: World, w1: World) -> bool {
    &&& w1.id == w0.id
    &&& w1.components@ == w0.components@
    &&& w1.archetypes@ == w0.archetypes@
    &&& w1.next_entity_index == w0.next_entity_index
    &&& w1.last_change_tick == w0.last_change_tick
    &&& w1.change_tick == w0.change_tick
    &&& w1.tables@.len() == w0.tables@.len()
    &&& forall|t: int|
        0 <= t < w0.tables@.len() ==> (#[trigger] w1.tables@[t]).columns@.len()
            == w0.tables@[t].columns@.len()
    &&& forall|t: int, ci: int|
        0 <= t < w0.tables@.len() && 0 <= ci < w0.tables@[t].columns@.len() ==> {
            &&& (#[trigger] w1.tables@[t].columns@[ci]).component_id
                == w0.tables@[t].columns@[ci].component_id
            &&& w1.tables@[t].columns@[ci].values@ == w0.tables@[t].columns@[ci].values@
            &&& w1.tables@[t].columns@[ci].ticks@.len() == w0.tables@[t].columns@[ci].ticks@.len()
        }
    &&& forall|t: int, ci: int, row: int|
        0 <= t < w0.tables@.len() && 0 <= ci < w0.tables@[t].columns@.len() && 0 <= row
            < w0.tables@[t].columns@[ci].ticks@.len() ==> (
        #[trigger] w1.tables@[t].columns@[ci].ticks@[row]).added
            == w0.tables@[t].columns@[ci].ticks@[row].added
    &&& w1.sparse_sets@.len() == w0.sparse_sets@.len()
    &&& forall|c: int|
        0 <= c < w0.sparse_sets@.len() ==> {
            &&& (#[trigger] w1.sparse_sets@[c]).component_id == w0.sparse_sets@[c].component_id
            &&& w1.sparse_sets@[c].entries@.len() == w0.sparse_sets@[c].entries@.len()
        }
    &&& forall|c: int, k: int|
        0 <= c < w0.sparse_sets@.len() && 0 <= k < w0.sparse_sets@[c].entries@.len() ==> {
            &&& (#[trigger] w1.sparse_sets@[c].entries@[k]).entity
                == w0.sparse_sets@[c].entries@[k].entity
            &&& w1.sparse_sets@[c].entries@[k].value == w0.sparse_sets@[c].entries@[k].value
            &&& w1.sparse_sets@[c].entries@[k].ticks.added
                == w0.sparse_sets@[c].entries@[k].ticks.added
        }
}

/// Does the row pass one filter? Presence and absence were settled at the
/// composition level; change tracking compares the slot's metadata against
/// the iteration window.
pub open spec fn spec_filter_passes(
    w: World,
    f: FilterKind,
    a: int,
    row: int,
    last: u32,
    cur: u32,
) -> bool {
    match f {
        FilterKind::With(_) => true,
        FilterKind::Without(_) => true,
        FilterKind::Changed(c) => spec_tick_newer_than(
            w.spec_slot_ticks(a, row, c).changed,
            last,
            cur,
        ),
        FilterKind::Added(c) => spec_tick_newer_than(w.spec_slot_ticks(a, row, c).added, last, cur),
    }
}

/// Does the row pass every filter of the query?
pub open spec fn spec_row_passes(
    w: World,
    filters: Seq<FilterKind>,
    a: int,
    row: int,
    last: u32,
    cur: u32,
) -> bool {
    forall|i: int|
        0 <= i < filters.len() ==> spec_filter_passes(w, #[trigger] filters[i], a, row, last, cur)
}

/// The handle one access request yields for one row.
pub open spec fn spec_fetch_one(
    w: World,
    a: int,
    row: int,
    k: FetchKind,
    last: u32,
    cur: u32,
) -> FetchResult {
    match k {
        FetchKind::Ref(c) => FetchResult::Ref { value: w.spec_slot_value(a, row, c) },
        FetchKind::RefMut(c) => FetchResult::RefMut {
            value: w.spec_slot_value(a, row, c),
            last_change_tick: last,
            change_tick: cur,
        },
    }
}

/// The handles all access requests yield for one row, in request order.
pub open spec fn spec_fetch_row(
    w: World,
    fetches: Seq<FetchKind>,
    a: int,
    row: int,
    last: u32,
    cur: u32,
) -> Seq<FetchResult> {
    Seq::new(fetches.len(), |i: int| spec_fetch_one(w, a, row, fetches[i], last, cur))
}

/// The rows of archetype `a` below `n` that pass every filter, in order.
pub open spec fn spec_arch_rows(
    w: World,
    filters: Seq<FilterKind>,
    a: int,
    n: int,
    last: u32,
    cur: u32,
) -> Seq<int>
    decreases n,
{
    if n <= 0 {
        Seq::empty()
    } else if spec_row_passes(w, filters, a, n - 1, last, cur) {
        spec_arch_rows(w, filters, a, n - 1, last, cur).push(n - 1)
    } else {
        spec_arch_rows(w, filters, a, n - 1, last, cur)
    }
}

/// The positions one iteration pass yields: for each matched archetype in
/// match order, its passing rows in row order.
pub open spec fn spec_yield_pairs(
    w: World,
    filters: Seq<FilterKind>,
    ids: Seq<usize>,
    last: u32,
    cur: u32,
) -> Seq<(int, int)>
    decreases ids.len(),
{
    if ids.len() == 0 {
        Seq::empty()
    } else {
        let a = ids.last() as int;
        spec_yield_pairs(w, filters, ids.drop_last(), last, cur) + spec_arch_rows(
            w,
            filters,
            a,
            w.archetypes@[a].entities@.len() as int,
            last,
            cur,
        ).map_values(|row: int| (a, row))
    }
}

/// Is the slot of field `c` for the entity at `(a, row)` written by an
/// iteration pass: the position exists, its archetype matches, the row
/// passes every filter, and the field is exclusively fetched.
pub open spec fn spec_slot_written(
    w: World,
    fetches: Seq<FetchKind>,
    filters: Seq<FilterKind>,
    a: int,
    row: int,
    c: ComponentId,
    last: u32,
    cur: u32,
) -> bool {
    &&& 0 <= a < w.archetypes@.len()
    &&& 0 <= row < w.archetypes@[a].entities@.len()
    &&& spec_query_matches(fetches, filters, w.archetypes@[a])
    &&& spec_row_passes(w, filters, a, row, last, cur)
    &&& spec_writes_comp(fetches, c)
}

/// Store state after fetching one row: `changed` is bumped to `cur` on the
/// row's slots of exclusively fetched fields, and nowhere else.
pub open spec fn spec_fetch_post(
    w0: World,
    w1: World,
    fetches: Seq<FetchKind>,
    a: int,
    row: int,
    cur: u32,
) -> bool {
    &&& spec_skeleton_same(w0, w1)
    &&& forall|t: int, ci: int, r2: int|
        0 <= t < w0.tables@.len() && 0 <= ci < w0.tables@[t].columns@.len() && 0 <= r2
            < w0.tables@[t].columns@[ci].ticks@.len() ==> (
        #[trigger] w1.tables@[t].columns@[ci].ticks@[r2]).changed == if t == a && r2 == row
            && spec_writes_comp(fetches, w0.tables@[t].columns@[ci].component_id) {
            cur
        } else {
            w0.tables@[t].columns@[ci].ticks@[r2].changed
        }
    &&& forall|c: int, k: int|
        0 <= c < w0.sparse_sets@.len() && 0 <= k < w0.sparse_sets@[c].entries@.len() ==> (
        #[trigger] w1.sparse_sets@[c].entries@[k]).ticks.changed == if w0.components@[c].storage_type
            is SparseSet && spec_writes_comp(fetches, w0.sparse_sets@[c].component_id)
            && w0.sparse_sets@[c].entries@[k].entity == w0.spec_entity_at(a, row) {
            cur
        } else {
            w0.sparse_sets@[c].entries@[k].ticks.changed
        }
}

/// Store state after processing the first `upto` rows of archetype `a`.
pub open spec fn spec_arch_upto_post(
    w0: World,
    w1: World,
    fetches: Seq<FetchKind>,
    filters: Seq<FilterKind>,
    a: int,
    upto: int,
    last: u32,
    cur: u32,
) -> bool {
    &&& spec_skeleton_same(w0, w1)
    &&& forall|t: int, ci: int, r2: int|
        0 <= t < w0.tables@.len() && 0 <= ci < w0.tables@[t].columns@.len() && 0 <= r2
            < w0.tables@[t].columns@[ci].ticks@.len() ==> (
        #[trigger] w1.tables@[t].columns@[ci].ticks@[r2]).changed == if t == a && r2 < upto
            && spec_slot_written(
            w0,
            fetches,
            filters,
            t,
            r2,
            w0.tables@[t].columns@[ci].component_id,
            last,
            cur,
        ) {
            cur
        } else {
            w0.tables@[t].columns@[ci].ticks@[r2].changed
        }
    &&& forall|c: int, k: int|
        0 <= c < w0.sparse_sets@.len() && 0 <= k < w0.sparse_sets@[c].entries@.len() ==> (
        #[trigger] w1.sparse_sets@[c].entries@[k]).ticks.changed == if w0.components@[c].storage_type
            is SparseSet && (exists|r2: int|
            0 <= r2 < upto && spec_slot_written(
                w0,
                fetches,
                filters,
                a,
                r2,
                w0.sparse_sets@[c].component_id,
                last,
                cur,
            ) && w0.spec_entity_at(a, r2) == w0.sparse_sets@[c].entries@[k].entity) {
            cur
        } else {
            w0.sparse_sets@[c].entries@[k].ticks.changed
        }
}

/// Store state after fully processing the archetypes listed in `done`.
pub open spec fn spec_done_post(
    w0: World,
    w1: World,
    fetches: Seq<FetchKind>,
    filters: Seq<FilterKind>,
    done: Seq<usize>,
    last: u32,
    cur: u32,
) -> bool {
    &&& spec_skeleton_same(w0, w1)
    &&& forall|t: int, ci: int, r2: int|
        0 <= t < w0.tables@.len() && 0 <= ci < w0.tables@[t].columns@.len() && 0 <= r2
            < w0.tables@[t].columns@[ci].ticks@.len() ==> (
        #[trigger] w1.tables@[t].columns@[ci].ticks@[r2]).changed == if done.contains(t as usize)
            && spec_slot_written(
            w0,
            fetches,
            filters,
            t,
            r2,
            w0.tables@[t].columns@[ci].component_id,
            last,
            cur,
        ) {
            cur
        } else {
            w0.tables@[t].columns@[ci].ticks@[r2].changed
        }
    &&& forall|c: int, k: int|
        0 <= c < w0.sparse_sets@.len() && 0 <= k < w0.sparse_sets@[c].entries@.len() ==> (
        #[trigger] w1.sparse_sets@[c].entries@[k]).ticks.changed == if w0.components@[c].storage_type
            is SparseSet && (exists|j: int, r2: int|
            0 <= j < done.len() && 0 <= r2 && spec_slot_written(
                w0,
                fetches,
                filters,
                done[j] as int,
                r2,
                w0.sparse_sets@[c].component_id,
                last,
                cur,
            ) && #[trigger] w0.spec_entity_at(done[j] as int, r2)
                == w0.sparse_sets@[c].entries@[k].entity) {
            cur
        } else {
            w0.sparse_sets@[c].entries@[k].ticks.changed
        }
}

/// Store state after one whole iteration pass over an up-to-date match
/// set: `changed` is `cur` exactly on the slots an exclusive fetch touched.
pub open spec fn spec_iterate_post(
    w0: World,
    w1: World,
    fetches: Seq<FetchKind>,
    filters: Seq<FilterKind>,
    last: u32,
    cur: u32,
) -> bool {
    &&& spec_skeleton_same(w0, w1)
    &&& forall|t: int, ci: int, r2: int|
        0 <= t < w0.tables@.len() && 0 <= ci < w0.tables@[t].columns@.len() && 0 <= r2
            < w0.tables@[t].columns@[ci].ticks@.len() ==> (
        #[trigger] w1.tables@[t].columns@[ci].ticks@[r2]).changed == if spec_slot_written(
            w0,
            fetches,
            filters,
            t,
            r2,
            w0.tables@[t].columns@[ci].component_id,
            last,
            cur,
        ) {
            cur
        } else {
            w0.tables@[t].columns@[ci].ticks@[r2].changed
        }
    &&& forall|c: int, k: int|
        0 <= c < w0.sparse_sets@.len() && 0 <= k < w0.sparse_sets@[c].entries@.len() ==> (
        #[trigger] w1.sparse_sets@[c].entries@[k]).ticks.changed == if w0.components@[c].storage_type
            is SparseSet && (exists|a: int, r2: int|
            spec_slot_written(
                w0,
                fetches,
                filters,
                a,
                r2,
                w0.sparse_sets@[c].component_id,
                last,
                cur,
            ) && #[trigger] w0.spec_entity_at(a, r2) == w0.sparse_sets@[c].entries@[k].entity) {
            cur
        } else {
            w0.sparse_sets@[c].entries@[k].ticks.changed
        }
}

/// A skeleton-equal store is well-formed whenever the original is.
#[verifier::rlimit(100)]
#[verifier::spinoff_prover]
pub proof fn lemma_skeleton_wf(w0: World, w1: World)
    requires
        w0.wf(),
        spec_skeleton_same(w0, w1),
    ensures
        w1.wf(),
{
    assert(w1.sparse_sets_wf()) by {
        assert forall|c: int| 0 <= c < w1.sparse_sets@.len() implies (
        #[trigger] w1.sparse_sets@[c]).component_id.id == c by {
            assert(w1.sparse_sets@[c].component_id == w0.sparse_sets@[c].component_id);
            assert(w0.sparse_sets@[c].component_id.id == c);
        }
        assert forall|c: int, k1: int, k2: int|
            0 <= c < w1.sparse_sets@.len() && 0 <= k1 < k2 < w1.sparse_sets@[c].entries@.len()
                implies (#[trigger] w1.sparse_sets@[c].entries@[k1]).entity != (
        #[trigger] w1.sparse_sets@[c].entries@[k2]).entity by {
            assert(w1.sparse_sets@[c].entries@[k1].entity == w0.sparse_sets@[c].entries@[k1].entity);
            assert(w1.sparse_sets@[c].entries@[k2].entity == w0.sparse_sets@[c].entries@[k2].entity);
            assert(w0.sparse_sets@[c].entries@[k1].entity != w0.sparse_sets@[c].entries@[k2].entity);
        }
        assert forall|c: int, k: int|
            0 <= c < w1.sparse_sets@.len() && 0 <= k < w1.sparse_sets@[c].entries@.len() implies (
        #[trigger] w1.sparse_sets@[c].entries@[k]).entity.index < w1.next_entity_index by {
            assert(w1.sparse_sets@[c].entries@[k].entity == w0.sparse_sets@[c].entries@[k].entity);
            assert(w0.sparse_sets@[c].entries@[k].entity.index < w0.next_entity_index);
        }
    }
    assert(w1.tables@.len() == w1.archetypes@.len());
    assert(w1.entities_wf()) by {
        assert forall|a: int, row: int| w1.spec_pos_valid(a, row) implies (
        #[trigger] w1.spec_entity_at(a, row)).index < w1.next_entity_index by {
            assert(w0.spec_entity_at(a, row).index < w0.next_entity_index);
        }
        assert forall|a1: int, row1: int, a2: int, row2: int|
            w1.spec_pos_valid(a1, row1) && w1.spec_pos_valid(a2, row2) && !(a1 == a2 && row1
                == row2) implies #[trigger] w1.spec_entity_at(a1, row1)
            != #[trigger] w1.spec_entity_at(a2, row2) by {
            assert(w0.spec_entity_at(a1, row1) != w0.spec_entity_at(a2, row2));
        }
    }
    assert(w1.arch_distinct_wf()) by {
        assert forall|a1: int, a2: int| 0 <= a1 < a2 < w1.archetypes@.len() implies (
        #[trigger] w1.archetypes@[a1]).components@ != (
        #[trigger] w1.archetypes@[a2]).components@ by {
            assert(w0.archetypes@[a1].components@ != w0.archetypes@[a2].components@);
        }
    }
    assert forall|a: int| 0 <= a < w1.archetypes@.len() implies {
        &&& #[trigger] w1.arch_components_wf(a)
        &&& w1.arch_table_wf(a)
        &&& w1.arch_sparse_wf(a)
    } by {
        assert(w0.arch_components_wf(a));
        assert(w0.arch_table_wf(a));
        assert(w0.arch_sparse_wf(a));
        assert(w1.arch_components_wf(a));
        assert(w1.arch_table_wf(a)) by {
            let cols0 = w0.tables@[a].columns@;
            let cols1 = w1.tables@[a].columns@;
            assert forall|ci: int, cj: int| 0 <= ci < cj < cols1.len() implies (
            #[trigger] cols1[ci]).component_id != (#[trigger] cols1[cj]).component_id by {
                assert(cols1[ci].component_id == cols0[ci].component_id);
                assert(cols1[cj].component_id == cols0[cj].component_id);
            }
            assert forall|ci: int| 0 <= ci < cols1.len() implies {
                &&& w1.archetypes@[a].spec_has((#[trigger] cols1[ci]).component_id)
                &&& cols1[ci].component_id.id < w1.components@.len()
                &&& w1.spec_storage(cols1[ci].component_id) is Table
                &&& cols1[ci].values@.len() == w1.archetypes@[a].entities@.len()
                &&& cols1[ci].ticks@.len() == w1.archetypes@[a].entities@.len()
            } by {
                assert(cols1[ci].component_id == cols0[ci].component_id);
                assert(cols1[ci].values@ == cols0[ci].values@);
            }
            assert forall|i: int|
                0 <= i < w1.archetypes@[a].components@.len() && w1.spec_storage(
                    #[trigger] w1.archetypes@[a].components@[i],
                ) is Table implies crate::world::spec_has_col(
                cols1,
                w1.archetypes@[a].components@[i],
            ) by {
                assert(crate::world::spec_has_col(cols0, w0.archetypes@[a].components@[i]));
                let ci = choose|ci: int|
                    0 <= ci < cols0.len() && cols0[ci].component_id
                        == w0.archetypes@[a].components@[i];
                assert(cols1[ci].component_id == w1.archetypes@[a].components@[i]);
            }
        }
        assert(w1.arch_sparse_wf(a)) by {
            assert forall|i: int, row: int|
                0 <= i < w1.archetypes@[a].components@.len() && 0 <= row
                    < w1.archetypes@[a].entities@.len() && w1.spec_storage(
                    #[trigger] w1.archetypes@[a].components@[i],
                ) is SparseSet implies crate::world::spec_has_entry(
                w1.sparse_sets@[w1.archetypes@[a].components@[i].id as int].entries@,
                #[trigger] w1.archetypes@[a].entities@[row],
            ) by {
                let c = w1.archetypes@[a].components@[i];
                assert(crate::world::spec_has_entry(
                    w0.sparse_sets@[c.id as int].entries@,
                    w0.archetypes@[a].entities@[row],
                ));
                let k = choose|k: int|
                    0 <= k < w0.sparse_sets@[c.id as int].entries@.len()
                        && w0.sparse_sets@[c.id as int].entries@[k].entity
                        == w0.archetypes@[a].entities@[row];
                assert(w1.sparse_sets@[c.id as int].entries@[k].entity
                    == w1.archetypes@[a].entities@[row]);
            }
        }
    }
    assert(forall|a: int|
        0 <= a < w1.archetypes@.len() ==> {
            &&& #[trigger] w1.arch_components_wf(a)
            &&& w1.arch_table_wf(a)
            &&& w1.arch_sparse_wf(a)
        });
    assert(w1.wf());
}

/// Skeleton equality composes.
pub proof fn lemma_skeleton_trans(w0: World, w1: World, w2: World)
    requires
        spec_skeleton_same(w0, w1),
        spec_skeleton_same(w1, w2),
    ensures
        spec_skeleton_same(w0, w2),
{
    assert forall|t: int, ci: int|
        0 <= t < w0.tables@.len() && 0 <= ci < w0.tables@[t].columns@.len() implies {
        &&& (#[trigger] w2.tables@[t].columns@[ci]).component_id
            == w0.tables@[t].columns@[ci].component_id
        &&& w2.tables@[t].columns@[ci].values@ == w0.tables@[t].columns@[ci].values@
        &&& w2.tables@[t].columns@[ci].ticks@.len() == w0.tables@[t].columns@[ci].ticks@.len()
    } by {
        assert(w1.tables@[t].columns@[ci].component_id == w0.tables@[t].columns@[ci].component_id);
        assert(w1.tables@[t].columns@[ci].values@ == w0.tables@[t].columns@[ci].values@);
        assert(w1.tables@[t].columns@[ci].ticks@.len() == w0.tables@[t].columns@[ci].ticks@.len());
    }
    assert forall|t: int, ci: int, row: int|
        0 <= t < w0.tables@.len() && 0 <= ci < w0.tables@[t].columns@.len() && 0 <= row
            < w0.tables@[t].columns@[ci].ticks@.len() implies (
    #[trigger] w2.tables@[t].columns@[ci].ticks@[row]).added
        == w0.tables@[t].columns@[ci].ticks@[row].added by {
        assert(w1.tables@[t].columns@[ci].ticks@[row].added
            == w0.tables@[t].columns@[ci].ticks@[row].added);
    }
    assert forall|c: int, k: int|
        0 <= c < w0.sparse_sets@.len() && 0 <= k < w0.sparse_sets@[c].entries@.len() implies {
        &&& (#[trigger] w2.sparse_sets@[c].entries@[k]).entity
            == w0.sparse_sets@[c].entries@[k].entity
        &&& w2.sparse_sets@[c].entries@[k].value == w0.sparse_sets@[c].entries@[k].value
        &&& w2.sparse_sets@[c].entries@[k].ticks.added
            == w0.sparse_sets@[c].entries@[k].ticks.added
    } by {
        assert(w1.sparse_sets@[c].entries@[k].entity == w0.sparse_sets@[c].entries@[k].entity);
        assert(w1.sparse_sets@[c].entries@[k].value == w0.sparse_sets@[c].entries@[k].value);
        assert(w1.sparse_sets@[c].entries@[k].ticks.added
            == w0.sparse_sets@[c].entries@[k].ticks.added);
    }
}

/// The address of a slot is stable across skeleton-equal stores, and its
/// value and creation tick are unchanged.
pub proof fn lemma_slot_layout(w0: World, w1: World, a: int, row: int, c: ComponentId)
    requires
        w0.wf(),
        spec_skeleton_same(w0, w1),
        w0.spec_pos_valid(a, row),
        w0.archetypes@[a].spec_has(c),
    ensures
        w0.archetypes@[a].table_id == a,
        c.id < w0.components@.len(),
        w1.spec_entity_at(a, row) == w0.spec_entity_at(a, row),
        w0.spec_storage(c) is Table ==> {
            let ci = spec_the_col(w0.tables@[a].columns@, c);
            &&& 0 <= ci < w0.tables@[a].columns@.len()
            &&& w0.tables@[a].columns@[ci].component_id == c
            &&& spec_the_col(w1.tables@[a].columns@, c) == ci
            &&& w0.tables@[a].columns@[ci].ticks@.len() == w0.archetypes@[a].entities@.len()
            &&& w1.spec_slot_value(a, row, c) == w0.spec_slot_value(a, row, c)
            &&& w0.spec_slot_ticks(a, row, c) == w0.tables@[a].columns@[ci].ticks@[row]
            &&& w1.spec_slot_ticks(a, row, c) == w1.tables@[a].columns@[ci].ticks@[row]
            &&& w1.spec_slot_ticks(a, row, c).added == w0.spec_slot_ticks(a, row, c).added
        },
        w0.spec_storage(c) is SparseSet ==> {
            let k = spec_the_entry(
                w0.sparse_sets@[c.id as int].entries@,
                w0.spec_entity_at(a, row),
            );
            &&& 0 <= k < w0.sparse_sets@[c.id as int].entries@.len()
            &&& w0.sparse_sets@[c.id as int].entries@[k].entity == w0.spec_entity_at(a, row)
            &&& spec_the_entry(w1.sparse_sets@[c.id as int].entries@, w0.spec_entity_at(a, row))
                == k
            &&& w1.spec_slot_value(a, row, c) == w0.spec_slot_value(a, row, c)
            &&& w0.spec_slot_ticks(a, row, c) == w0.sparse_sets@[c.id as int].entries@[k].ticks
            &&& w1.spec_slot_ticks(a, row, c) == w1.sparse_sets@[c.id as int].entries@[k].ticks
            &&& w1.spec_slot_ticks(a, row, c).added == w0.spec_slot_ticks(a, row, c).added
        },
{
    assert(w0.arch_components_wf(a));
    assert(w0.arch_table_wf(a));
    assert(w0.arch_sparse_wf(a));
    let idx = choose|i: int|
        0 <= i < w0.archetypes@[a].components@.len() && w0.archetypes@[a].components@[i] == c;
    assert(w0.archetypes@[a].components@[idx] == c);
    if w0.spec_storage(c) is Table {
        assert(crate::world::spec_has_col(w0.tables@[a].columns@, c));
        let ci = spec_the_col(w0.tables@[a].columns@, c);
        assert(0 <= ci < w0.tables@[a].columns@.len() && w0.tables@[a].columns@[ci].component_id
            == c);
        assert(w1.tables@[a].columns@[ci].component_id == c);
        crate::world::lemma_the_col_is(w1.tables@[a].columns@, c, ci);
        assert(w1.tables@[a].columns@[ci].values@ == w0.tables@[a].columns@[ci].values@);
    } else {
        let e = w0.spec_entity_at(a, row);
        assert(crate::world::spec_has_entry(w0.sparse_sets@[c.id as int].entries@, e)) by {
            assert(w0.archetypes@[a].entities@[row] == e);
        }
        let k = spec_the_entry(w0.sparse_sets@[c.id as int].entries@, e);
        assert(0 <= k < w0.sparse_sets@[c.id as int].entries@.len()
            && w0.sparse_sets@[c.id as int].entries@[k].entity == e);
        assert(w1.sparse_sets@[c.id as int].entries@[k].entity == e);
        assert forall|k1: int, k2: int|
            0 <= k1 < k2 < w1.sparse_sets@[c.id as int].entries@.len() implies (
        #[trigger] w1.sparse_sets@[c.id as int].entries@[k1]).entity != (
        #[trigger] w1.sparse_sets@[c.id as int].entries@[k2]).entity by {
            assert(w1.sparse_sets@[c.id as int].entries@[k1].entity
                == w0.sparse_sets@[c.id as int].entries@[k1].entity);
            assert(w1.sparse_sets@[c.id as int].entries@[k2].entity
                == w0.sparse_sets@[c.id as int].entries@[k2].entity);
        }
        crate::world::lemma_the_entry_is(w1.sparse_sets@[c.id as int].entries@, e, k);
        assert(w1.sparse_sets@[c.id as int].entries@[k].value
            == w0.sparse_sets@[c.id as int].entries@[k].value);
    }
}

/// A slot on a row that has not been processed yet keeps its value and
/// metadata while earlier rows of the same archetype are processed.
proof fn lemma_slot_same_upto(
    w0: World,
    w1: World,
    fetches: Seq<FetchKind>,
    filters: Seq<FilterKind>,
    a: int,
    upto: int,
    row: int,
    c: ComponentId,
    last: u32,
    cur: u32,
)
    requires
        w0.wf(),
        spec_arch_upto_post(w0, w1, fetches, filters, a, upto, last, cur),
        w0.spec_pos_valid(a, row),
        upto <= row,
        w0.archetypes@[a].spec_has(c),
    ensures
        w1.spec_slot_ticks(a, row, c) == w0.spec_slot_ticks(a, row, c),
        w1.spec_slot_value(a, row, c) == w0.spec_slot_value(a, row, c),
        w1.spec_entity_at(a, row) == w0.spec_entity_at(a, row),
{
    lemma_slot_layout(w0, w1, a, row, c);
    if w0.spec_storage(c) is Table {
        let ci = spec_the_col(w0.tables@[a].columns@, c);
        assert(w1.tables@[a].columns@[ci].ticks@[row].changed
            == w0.tables@[a].columns@[ci].ticks@[row].changed);
        assert(w1.spec_slot_ticks(a, row, c).changed == w0.spec_slot_ticks(a, row, c).changed);
        assert(w1.spec_slot_ticks(a, row, c).added == w0.spec_slot_ticks(a, row, c).added);
    } else {
        let k = spec_the_entry(w0.sparse_sets@[c.id as int].entries@, w0.spec_entity_at(a, row));
        if exists|r2: int|
            0 <= r2 < upto && spec_slot_written(
                w0,
                fetches,
                filters,
                a,
                r2,
                w0.sparse_sets@[c.id as int].component_id,
                last,
                cur,
            ) && w0.spec_entity_at(a, r2) == w0.sparse_sets@[c.id as int].entries@[k].entity {
            let r2 = choose|r2: int|
                0 <= r2 < upto && spec_slot_written(
                    w0,
                    fetches,
                    filters,
                    a,
                    r2,
                    w0.sparse_sets@[c.id as int].component_id,
                    last,
                    cur,
                ) && w0.spec_entity_at(a, r2) == w0.sparse_sets@[c.id as int].entries@[k].entity;
            assert(w0.spec_entity_at(a, r2) == w0.spec_entity_at(a, row));
            assert(r2 != row);
            assert(w0.spec_pos_valid(a, r2));
            assert(false);
        }
        assert(w1.sparse_sets@[c.id as int].entries@[k].ticks.changed
            == w0.sparse_sets@[c.id as int].entries@[k].ticks.changed);
        assert(w1.spec_slot_ticks(a, row, c).changed == w0.spec_slot_ticks(a, row, c).changed);
        assert(w1.spec_slot_ticks(a, row, c).added == w0.spec_slot_ticks(a, row, c).added);
    }
}

/// A slot of an archetype that is not in the processed list keeps its
/// value and metadata.
proof fn lemma_slot_same_done(
    w0: World,
    w1: World,
    fetches: Seq<FetchKind>,
    filters: Seq<FilterKind>,
    done: Seq<usize>,
    a: int,
    row: int,
    c: ComponentId,
    last: u32,
    cur: u32,
)
    requires
        w0.wf(),
        spec_done_post(w0, w1, fetches, filters, done, last, cur),
        w0.spec_pos_valid(a, row),
        !done.contains(a as usize),
        w0.archetypes@[a].spec_has(c),
    ensures
        w1.spec_slot_ticks(a, row, c) == w0.spec_slot_ticks(a, row, c),
        w1.spec_slot_value(a, row, c) == w0.spec_slot_value(a, row, c),
        w1.spec_entity_at(a, row) == w0.spec_entity_at(a, row),
{
    lemma_slot_layout(w0, w1, a, row, c);
    if w0.spec_storage(c) is Table {
        let ci = spec_the_col(w0.tables@[a].columns@, c);
        assert(!done.contains((a as int) as usize));
        assert(w1.tables@[a].columns@[ci].ticks@[row].changed
            == w0.tables@[a].columns@[ci].ticks@[row].changed);
        assert(w1.spec_slot_ticks(a, row, c).changed == w0.spec_slot_ticks(a, row, c).changed);
        assert(w1.spec_slot_ticks(a, row, c).added == w0.spec_slot_ticks(a, row, c).added);
    } else {
        let k = spec_the_entry(w0.sparse_sets@[c.id as int].entries@, w0.spec_entity_at(a, row));
        if exists|j: int, r2: int|
            0 <= j < done.len() && 0 <= r2 && spec_slot_written(
                w0,
                fetches,
                filters,
                done[j] as int,
                r2,
                w0.sparse_sets@[c.id as int].component_id,
                last,
                cur,
            ) && #[trigger] w0.spec_entity_at(done[j] as int, r2)
                == w0.sparse_sets@[c.id as int].entries@[k].entity {
            let (j, r2) = choose|j: int, r2: int|
                0 <= j < done.len() && 0 <= r2 && spec_slot_written(
                    w0,
                    fetches,
                    filters,
                    done[j] as int,
                    r2,
                    w0.sparse_sets@[c.id as int].component_id,
                    last,
                    cur,
                ) && #[trigger] w0.spec_entity_at(done[j] as int, r2)
                    == w0.sparse_sets@[c.id as int].entries@[k].entity;
            assert(w0.spec_entity_at(done[j] as int, r2) == w0.spec_entity_at(a, row));
            assert(done[j] as int != a);
            assert(w0.spec_pos_valid(done[j] as int, r2));
            assert(false);
        }
        assert(w1.sparse_sets@[c.id as int].entries@[k].ticks.changed
            == w0.sparse_sets@[c.id as int].entries@[k].ticks.changed);
        assert(w1.spec_slot_ticks(a, row, c).changed == w0.spec_slot_ticks(a, row, c).changed);
        assert(w1.spec_slot_ticks(a, row, c).added == w0.spec_slot_ticks(a, row, c).added);
    }
}

/// While earlier rows of archetype `a` are processed, a later row's filter
/// verdict, fetched handles and entity are those of the original store.
proof fn lemma_row_state_same_upto(
    w0: World,
    w1: World,
    fetches: Seq<FetchKind>,
    filters: Seq<FilterKind>,
    a: int,
    upto: int,
    row: int,
    last: u32,
    cur: u32,
)
    requires
        w0.wf(),
        spec_arch_upto_post(w0, w1, fetches, filters, a, upto, last, cur),
        w0.spec_pos_valid(a, row),
        upto <= row,
        spec_query_matches(fetches, filters, w0.archetypes@[a]),
    ensures
        spec_row_passes(w1, filters, a, row, last, cur) == spec_row_passes(
            w0,
            filters,
            a,
            row,
            last,
            cur,
        ),
        spec_fetch_row(w1, fetches, a, row, last, cur) == spec_fetch_row(
            w0,
            fetches,
            a,
            row,
            last,
            cur,
        ),
        w1.spec_entity_at(a, row) == w0.spec_entity_at(a, row),
{
    assert forall|i: int| 0 <= i < filters.len() implies spec_filter_passes(
        w1,
        #[trigger] filters[i],
        a,
        row,
        last,
        cur,
    ) == spec_filter_passes(w0, filters[i], a, row, last, cur) by {
        assert(spec_filter_matches(filters[i], w0.archetypes@[a]));
        match filters[i] {
            FilterKind::Changed(c) => {
                lemma_slot_same_upto(w0, w1, fetches, filters, a, upto, row, c, last, cur);
            },
            FilterKind::Added(c) => {
                lemma_slot_same_upto(w0, w1, fetches, filters, a, upto, row, c, last, cur);
            },
            _ => {},
        }
    }
    assert(spec_row_passes(w1, filters, a, row, last, cur) == spec_row_passes(
        w0,
        filters,
        a,
        row,
        last,
        cur,
    )) by {
        if spec_row_passes(w0, filters, a, row, last, cur) {
            assert forall|i: int| 0 <= i < filters.len() implies spec_filter_passes(
                w1,
                #[trigger] filters[i],
                a,
                row,
                last,
                cur,
            ) by {
                assert(spec_filter_passes(w0, filters[i], a, row, last, cur));
            }
        }
        if spec_row_passes(w1, filters, a, row, last, cur) {
            assert forall|i: int| 0 <= i < filters.len() implies spec_filter_passes(
                w0,
                #[trigger] filters[i],
                a,
                row,
                last,
                cur,
            ) by {
                assert(spec_filter_passes(w1, filters[i], a, row, last, cur));
            }
        }
    }
    assert(spec_fetch_row(w1, fetches, a, row, last, cur) =~= spec_fetch_row(
        w0,
        fetches,
        a,
        row,
        last,
        cur,
    )) by {
        assert forall|i: int| 0 <= i < fetches.len() implies spec_fetch_one(
            w1,
            a,
            row,
            #[trigger] fetches[i],
            last,
            cur,
        ) == spec_fetch_one(w0, a, row, fetches[i], last, cur) by {
            assert(spec_fetch_matches(fetches[i], w0.archetypes@[a]));
            lemma_slot_same_upto(
                w0,
                w1,
                fetches,
                filters,
                a,
                upto,
                row,
                spec_fetch_comp(fetches[i]),
                last,
                cur,
            );
        }
    }
    assert(w1.spec_entity_at(a, row) == w0.spec_entity_at(a, row));
}

/// An archetype outside the processed list keeps its filter verdicts,
/// fetched handles, entities, and its whole passing-row sequence.
proof fn lemma_row_state_same_done(
    w0: World,
    w1: World,
    fetches: Seq<FetchKind>,
    filters: Seq<FilterKind>,
    done: Seq<usize>,
    a: int,
    row: int,
    last: u32,
    cur: u32,
)
    requires
        w0.wf(),
        spec_done_post(w0, w1, fetches, filters, done, last, cur),
        w0.spec_pos_valid(a, row),
        !done.contains(a as usize),
        spec_query_matches(fetches, filters, w0.archetypes@[a]),
    ensures
        spec_row_passes(w1, filters, a, row, last, cur) == spec_row_passes(
            w0,
            filters,
            a,
            row,
            last,
            cur,
        ),
        spec_fetch_row(w1, fetches, a, row, last, cur) == spec_fetch_row(
            w0,
            fetches,
            a,
            row,
            last,
            cur,
        ),
        w1.spec_entity_at(a, row) == w0.spec_entity_at(a, row),
{
    assert forall|i: int| 0 <= i < filters.len() implies spec_filter_passes(
        w1,
        #[trigger] filters[i],
        a,
        row,
        last,
        cur,
    ) == spec_filter_passes(w0, filters[i], a, row, last, cur) by {
        assert(spec_filter_matches(filters[i], w0.archetypes@[a]));
        match filters[i] {
            FilterKind::Changed(c) => {
                lemma_slot_same_done(w0, w1, fetches, filters, done, a, row, c, last, cur);
            },
            FilterKind::Added(c) => {
                lemma_slot_same_done(w0, w1, fetches, filters, done, a, row, c, last, cur);
            },
            _ => {},
        }
    }
    assert(spec_row_passes(w1, filters, a, row, last, cur) == spec_row_passes(
        w0,
        filters,
        a,
        row,
        last,
        cur,
    )) by {
        if spec_row_passes(w0, filters, a, row, last, cur) {
            assert forall|i: int| 0 <= i < filters.len() implies spec_filter_passes(
                w1,
                #[trigger] filters[i],
                a,
                row,
                last,
                cur,
            ) by {
                assert(spec_filter_passes(w0, filters[i], a, row, last, cur));
            }
        }
        if spec_row_passes(w1, filters, a, row, last, cur) {
            assert forall|i: int| 0 <= i < filters.len() implies spec_filter_passes(
                w0,
                #[trigger] filters[i],
                a,
                row,
                last,
                cur,
            ) by {
                assert(spec_filter_passes(w1, filters[i], a, row, last, cur));
            }
        }
    }
    assert(spec_fetch_row(w1, fetches, a, row, last, cur) =~= spec_fetch_row(
        w0,
        fetches,
        a,
        row,
        last,
        cur,
    )) by {
        assert forall|i: int| 0 <= i < fetches.len() implies spec_fetch_one(
            w1,
            a,
            row,
            #[trigger] fetches[i],
            last,
            cur,
        ) == spec_fetch_one(w0, a, row, fetches[i], last, cur) by {
            assert(spec_fetch_matches(fetches[i], w0.archetypes@[a]));
            lemma_slot_same_done(
                w0,
                w1,
                fetches,
                filters,
                done,
                a,
                row,
                spec_fetch_comp(fetches[i]),
                last,
                cur,
            );
        }
    }
    assert(w1.spec_entity_at(a, row) == w0.spec_entity_at(a, row));
}

/// The passing-row sequence of an untouched archetype is unchanged.
proof fn lemma_arch_rows_same_done(
    w0: World,
    w1: World,
    fetches: Seq<FetchKind>,
    filters: Seq<FilterKind>,
    done: Seq<usize>,
    a: int,
    n: int,
    last: u32,
    cur: u32,
)
    requires
        w0.wf(),
        spec_done_post(w0, w1, fetches, filters, done, last, cur),
        0 <= a < w0.archetypes@.len(),
        0 <= n <= w0.archetypes@[a].entities@.len(),
        !done.contains(a as usize),
        spec_query_matches(fetches, filters, w0.archetypes@[a]),
    ensures
        spec_arch_rows(w1, filters, a, n, last, cur) == spec_arch_rows(
            w0,
            filters,
            a,
            n,
            last,
            cur,
        ),
    decreases n,
{
    if n > 0 {
        lemma_arch_rows_same_done(w0, w1, fetches, filters, done, a, n - 1, last, cur);
        lemma_row_state_same_done(w0, w1, fetches, filters, done, a, n - 1, last, cur);
    }
}

/// Fetching the row `upto` (which passes its filters) after processing the
/// rows before it amounts to processing the rows up to `upto + 1`.
proof fn lemma_arch_upto_step_fetch(
    w0: World,
    w1: World,
    w2: World,
    fetches: Seq<FetchKind>,
    filters: Seq<FilterKind>,
    a: int,
    upto: int,
    last: u32,
    cur: u32,
)
    requires
        w0.wf(),
        spec_arch_upto_post(w0, w1, fetches, filters, a, upto, last, cur),
        spec_fetch_post(w1, w2, fetches, a, upto, cur),
        w0.spec_pos_valid(a, upto),
        spec_query_matches(fetches, filters, w0.archetypes@[a]),
        spec_row_passes(w0, filters, a, upto, last, cur),
    ensures
        spec_arch_upto_post(w0, w2, fetches, filters, a, upto + 1, last, cur),
{
    lemma_skeleton_trans(w0, w1, w2);
    assert forall|t: int, ci: int, r2: int|
        0 <= t < w0.tables@.len() && 0 <= ci < w0.tables@[t].columns@.len() && 0 <= r2
            < w0.tables@[t].columns@[ci].ticks@.len() implies (
    #[trigger] w2.tables@[t].columns@[ci].ticks@[r2]).changed == if t == a && r2 < upto + 1
        && spec_slot_written(
        w0,
        fetches,
        filters,
        t,
        r2,
        w0.tables@[t].columns@[ci].component_id,
        last,
        cur,
    ) {
        cur
    } else {
        w0.tables@[t].columns@[ci].ticks@[r2].changed
    } by {
        let c = w0.tables@[t].columns@[ci].component_id;
        assert(w1.tables@[t].columns@[ci].component_id == c);
        assert(w1.tables@[t].columns@[ci].ticks@.len() == w0.tables@[t].columns@[ci].ticks@.len());
        assert(w2.tables@[t].columns@[ci].ticks@[r2].changed == if t == a && r2 == upto
            && spec_writes_comp(fetches, c) {
            cur
        } else {
            w1.tables@[t].columns@[ci].ticks@[r2].changed
        });
        assert(w1.tables@[t].columns@[ci].ticks@[r2].changed == if t == a && r2 < upto
            && spec_slot_written(w0, fetches, filters, t, r2, c, last, cur) {
            cur
        } else {
            w0.tables@[t].columns@[ci].ticks@[r2].changed
        });
    }
    assert forall|c: int, k: int|
        0 <= c < w0.sparse_sets@.len() && 0 <= k < w0.sparse_sets@[c].entries@.len() implies (
    #[trigger] w2.sparse_sets@[c].entries@[k]).ticks.changed == if w0.components@[c].storage_type
        is SparseSet && (exists|r2: int|
        0 <= r2 < upto + 1 && spec_slot_written(
            w0,
            fetches,
            filters,
            a,
            r2,
            w0.sparse_sets@[c].component_id,
            last,
            cur,
        ) && w0.spec_entity_at(a, r2) == w0.sparse_sets@[c].entries@[k].entity) {
        cur
    } else {
        w0.sparse_sets@[c].entries@[k].ticks.changed
    } by {
        let sc = w0.sparse_sets@[c].component_id;
        assert(w1.sparse_sets@[c].component_id == sc);
        assert(w1.sparse_sets@[c].entries@.len() == w0.sparse_sets@[c].entries@.len());
        assert(w1.sparse_sets@[c].entries@[k].entity == w0.sparse_sets@[c].entries@[k].entity);
        assert(w1.components@ == w0.components@);
        assert(w1.spec_entity_at(a, upto) == w0.spec_entity_at(a, upto));
        assert(w2.sparse_sets@[c].entries@[k].ticks.changed == if w1.components@[c].storage_type
            is SparseSet && spec_writes_comp(fetches, sc) && w1.sparse_sets@[c].entries@[k].entity
            == w1.spec_entity_at(a, upto) {
            cur
        } else {
            w1.sparse_sets@[c].entries@[k].ticks.changed
        });
        let new_cond = w0.components@[c].storage_type is SparseSet && spec_writes_comp(fetches, sc)
            && w0.sparse_sets@[c].entries@[k].entity == w0.spec_entity_at(a, upto);
        if new_cond {
            assert(spec_slot_written(w0, fetches, filters, a, upto, sc, last, cur));
            assert(0 <= upto < upto + 1 && spec_slot_written(
                w0,
                fetches,
                filters,
                a,
                upto,
                sc,
                last,
                cur,
            ) && w0.spec_entity_at(a, upto) == w0.sparse_sets@[c].entries@[k].entity);
        }
        if !new_cond && (exists|r2: int|
            0 <= r2 < upto + 1 && spec_slot_written(
                w0,
                fetches,
                filters,
                a,
                r2,
                sc,
                last,
                cur,
            ) && w0.spec_entity_at(a, r2) == w0.sparse_sets@[c].entries@[k].entity)
            && w0.components@[c].storage_type is SparseSet {
            let r2 = choose|r2: int|
                0 <= r2 < upto + 1 && spec_slot_written(
                    w0,
                    fetches,
                    filters,
                    a,
                    r2,
                    sc,
                    last,
                    cur,
                ) && w0.spec_entity_at(a, r2) == w0.sparse_sets@[c].entries@[k].entity;
            if r2 == upto {
                assert(false);
            }
            assert(exists|r3: int|
                0 <= r3 < upto && spec_slot_written(
                    w0,
                    fetches,
                    filters,
                    a,
                    r3,
                    sc,
                    last,
                    cur,
                ) && w0.spec_entity_at(a, r3) == w0.sparse_sets@[c].entries@[k].entity);
        }
    }
}

/// Skipping a row that fails its filters amounts to processing it.
proof fn lemma_arch_upto_step_skip(
    w0: World,
    w1: World,
    fetches: Seq<FetchKind>,
    filters: Seq<FilterKind>,
    a: int,
    upto: int,
    last: u32,
    cur: u32,
)
    requires
        w0.wf(),
        spec_arch_upto_post(w0, w1, fetches, filters, a, upto, last, cur),
        w0.spec_pos_valid(a, upto),
        !spec_row_passes(w0, filters, a, upto, last, cur),
    ensures
        spec_arch_upto_post(w0, w1, fetches, filters, a, upto + 1, last, cur),
{
    assert forall|c: int, k: int|
        0 <= c < w0.sparse_sets@.len() && 0 <= k < w0.sparse_sets@[c].entries@.len() implies (
    #[trigger] w1.sparse_sets@[c].entries@[k]).ticks.changed == if w0.components@[c].storage_type
        is SparseSet && (exists|r2: int|
        0 <= r2 < upto + 1 && spec_slot_written(
            w0,
            fetches,
            filters,
            a,
            r2,
            w0.sparse_sets@[c].component_id,
            last,
            cur,
        ) && w0.spec_entity_at(a, r2) == w0.sparse_sets@[c].entries@[k].entity) {
        cur
    } else {
        w0.sparse_sets@[c].entries@[k].ticks.changed
    } by {
        let sc = w0.sparse_sets@[c].component_id;
        if exists|r2: int|
            0 <= r2 < upto + 1 && spec_slot_written(
                w0,
                fetches,
                filters,
                a,
                r2,
                sc,
                last,
                cur,
            ) && w0.spec_entity_at(a, r2) == w0.sparse_sets@[c].entries@[k].entity {
            let r2 = choose|r2: int|
                0 <= r2 < upto + 1 && spec_slot_written(
                    w0,
                    fetches,
                    filters,
                    a,
                    r2,
                    sc,
                    last,
                    cur,
                ) && w0.spec_entity_at(a, r2) == w0.sparse_sets@[c].entries@[k].entity;
            assert(r2 != upto);
            assert(exists|r3: int|
                0 <= r3 < upto && spec_slot_written(
                    w0,
                    fetches,
                    filters,
                    a,
                    r3,
                    sc,
                    last,
                    cur,
                ) && w0.spec_entity_at(a, r3) == w0.sparse_sets@[c].entries@[k].entity);
        }
    }
}

/// Fully processing an archetype after a list of others amounts to
/// processing the longer list.
proof fn lemma_done_step(
    w0: World,
    w1: World,
    w2: World,
    fetches: Seq<FetchKind>,
    filters: Seq<FilterKind>,
    done: Seq<usize>,
    a: usize,
    last: u32,
    cur: u32,
)
    requires
        w0.wf(),
        w0.archetypes@.len() <= usize::MAX,
        spec_done_post(w0, w1, fetches, filters, done, last, cur),
        a < w0.archetypes@.len(),
        !done.contains(a),
        spec_query_matches(fetches, filters, w0.archetypes@[a as int]),
        spec_arch_upto_post(
            w1,
            w2,
            fetches,
            filters,
            a as int,
            w0.archetypes@[a as int].entities@.len() as int,
            last,
            cur,
        ),
    ensures
        spec_done_post(w0, w2, fetches, filters, done.push(a), last, cur),
{
    lemma_skeleton_trans(w0, w1, w2);
    lemma_skeleton_wf(w0, w1);
    let nrows = w0.archetypes@[a as int].entities@.len() as int;
    // translate the second stage's conditions from `w1` back to `w0`
    assert forall|r2: int| 0 <= r2 < nrows implies {
        &&& spec_row_passes(w1, filters, a as int, r2, last, cur) == spec_row_passes(
            w0,
            filters,
            a as int,
            r2,
            last,
            cur,
        )
        &&& w1.spec_entity_at(a as int, r2) == w0.spec_entity_at(a as int, r2)
    } by {
        lemma_row_state_same_done(w0, w1, fetches, filters, done, a as int, r2, last, cur);
    }
    assert(spec_query_matches(fetches, filters, w1.archetypes@[a as int]));
    assert forall|t: int, ci: int, r2: int|
        0 <= t < w0.tables@.len() && 0 <= ci < w0.tables@[t].columns@.len() && 0 <= r2
            < w0.tables@[t].columns@[ci].ticks@.len() implies (
    #[trigger] w2.tables@[t].columns@[ci].ticks@[r2]).changed == if done.push(a).contains(
        t as usize,
    ) && spec_slot_written(
        w0,
        fetches,
        filters,
        t,
        r2,
        w0.tables@[t].columns@[ci].component_id,
        last,
        cur,
    ) {
        cur
    } else {
        w0.tables@[t].columns@[ci].ticks@[r2].changed
    } by {
        let c = w0.tables@[t].columns@[ci].component_id;
        assert(w1.tables@[t].columns@[ci].component_id == c);
        assert(w1.tables@[t].columns@[ci].ticks@.len() == w0.tables@[t].columns@[ci].ticks@.len());
        assert(w2.tables@[t].columns@[ci].ticks@[r2].changed == if t == a as int && r2 < nrows
            && spec_slot_written(w1, fetches, filters, t, r2, c, last, cur) {
            cur
        } else {
            w1.tables@[t].columns@[ci].ticks@[r2].changed
        }) by {
            assert(w1.archetypes@[a as int].entities@.len() == nrows);
        }
        assert(w1.tables@[t].columns@[ci].ticks@[r2].changed == if done.contains(t as usize)
            && spec_slot_written(w0, fetches, filters, t, r2, c, last, cur) {
            cur
        } else {
            w0.tables@[t].columns@[ci].ticks@[r2].changed
        });
        if t == a as int && 0 <= r2 < nrows {
            lemma_row_state_same_done(w0, w1, fetches, filters, done, a as int, r2, last, cur);
            assert(spec_slot_written(w1, fetches, filters, t, r2, c, last, cur)
                == spec_slot_written(w0, fetches, filters, t, r2, c, last, cur));
        }
        assert(done.push(a).contains(t as usize) == (done.contains(t as usize) || t == a as int))
            by {
            if done.push(a).contains(t as usize) {
                let j = choose|j: int|
                    0 <= j < done.push(a).len() && done.push(a)[j] == t as usize;
                if j < done.len() {
                    assert(done[j] == t as usize);
                }
            }
            if done.contains(t as usize) {
                let j = choose|j: int| 0 <= j < done.len() && done[j] == t as usize;
                assert(done.push(a)[j] == t as usize);
            }
            if t == a as int {
                assert(done.push(a)[done.len() as int] == t as usize);
            }
        }
    }
    assert forall|c: int, k: int|
        0 <= c < w0.sparse_sets@.len() && 0 <= k < w0.sparse_sets@[c].entries@.len() implies (
    #[trigger] w2.sparse_sets@[c].entries@[k]).ticks.changed == if w0.components@[c].storage_type
        is SparseSet && (exists|j: int, r2: int|
        0 <= j < done.push(a).len() && 0 <= r2 && spec_slot_written(
            w0,
            fetches,
            filters,
            done.push(a)[j] as int,
            r2,
            w0.sparse_sets@[c].component_id,
            last,
            cur,
        ) && #[trigger] w0.spec_entity_at(done.push(a)[j] as int, r2)
            == w0.sparse_sets@[c].entries@[k].entity) {
        cur
    } else {
        w0.sparse_sets@[c].entries@[k].ticks.changed
    } by {
        let sc = w0.sparse_sets@[c].component_id;
        assert(w1.sparse_sets@[c].component_id == sc);
        assert(w1.sparse_sets@[c].entries@.len() == w0.sparse_sets@[c].entries@.len());
        assert(w1.sparse_sets@[c].entries@[k].entity == w0.sparse_sets@[c].entries@[k].entity);
        let cond1 = w0.components@[c].storage_type is SparseSet && (exists|j: int, r2: int|
            0 <= j < done.len() && 0 <= r2 && spec_slot_written(
                w0,
                fetches,
                filters,
                done[j] as int,
                r2,
                sc,
                last,
                cur,
            ) && #[trigger] w0.spec_entity_at(done[j] as int, r2)
                == w0.sparse_sets@[c].entries@[k].entity);
        let cond2 = w1.components@[c].storage_type is SparseSet && (exists|r2: int|
            0 <= r2 < w1.archetypes@[a as int].entities@.len() && spec_slot_written(
                w1,
                fetches,
                filters,
                a as int,
                r2,
                sc,
                last,
                cur,
            ) && w1.spec_entity_at(a as int, r2) == w1.sparse_sets@[c].entries@[k].entity);
        assert(w1.sparse_sets@[c].entries@[k].ticks.changed == if cond1 {
            cur
        } else {
            w0.sparse_sets@[c].entries@[k].ticks.changed
        });
        assert(w2.sparse_sets@[c].entries@[k].ticks.changed == if cond2 {
            cur
        } else {
            w1.sparse_sets@[c].entries@[k].ticks.changed
        });
        let goal = w0.components@[c].storage_type is SparseSet && (exists|j: int, r2: int|
            0 <= j < done.push(a).len() && 0 <= r2 && spec_slot_written(
                w0,
                fetches,
                filters,
                done.push(a)[j] as int,
                r2,
                sc,
                last,
                cur,
            ) && #[trigger] w0.spec_entity_at(done.push(a)[j] as int, r2)
                == w0.sparse_sets@[c].entries@[k].entity);
        if cond1 {
            let (j, r2) = choose|j: int, r2: int|
                0 <= j < done.len() && 0 <= r2 && spec_slot_written(
                    w0,
                    fetches,
                    filters,
                    done[j] as int,
                    r2,
                    sc,
                    last,
                    cur,
                ) && #[trigger] w0.spec_entity_at(done[j] as int, r2)
                    == w0.sparse_sets@[c].entries@[k].entity;
            assert(done.push(a)[j] == done[j]);
            assert(goal);
        }
        if cond2 {
            let r2 = choose|r2: int|
                0 <= r2 < w1.archetypes@[a as int].entities@.len() && spec_slot_written(
                    w1,
                    fetches,
                    filters,
                    a as int,
                    r2,
                    sc,
                    last,
                    cur,
                ) && w1.spec_entity_at(a as int, r2) == w1.sparse_sets@[c].entries@[k].entity;
            assert(spec_row_passes(w0, filters, a as int, r2, last, cur));
            assert(spec_slot_written(w0, fetches, filters, a as int, r2, sc, last, cur));
            assert(done.push(a)[done.len() as int] == a);
            assert(w0.spec_entity_at(done.push(a)[done.len() as int] as int, r2)
                == w0.sparse_sets@[c].entries@[k].entity);
            assert(goal);
        }
        if goal && !cond1 && !cond2 {
            let (j, r2) = choose|j: int, r2: int|
                0 <= j < done.push(a).len() && 0 <= r2 && spec_slot_written(
                    w0,
                    fetches,
                    filters,
                    done.push(a)[j] as int,
                    r2,
                    sc,
                    last,
                    cur,
                ) && #[trigger] w0.spec_entity_at(done.push(a)[j] as int, r2)
                    == w0.sparse_sets@[c].entries@[k].entity;
            if j < done.len() {
                assert(done.push(a)[j] == done[j]);
                assert(w0.spec_entity_at(done[j] as int, r2)
                    == w0.sparse_sets@[c].entries@[k].entity);
                assert(cond1);
            } else {
                assert(done.push(a)[j] == a);
                assert(spec_slot_written(w0, fetches, filters, a as int, r2, sc, last, cur));
                assert(r2 < nrows);
                assert(spec_row_passes(w1, filters, a as int, r2, last, cur));
                assert(spec_slot_written(w1, fetches, filters, a as int, r2, sc, last, cur));
                assert(w1.spec_entity_at(a as int, r2) == w1.sparse_sets@[c].entries@[k].entity);
                assert(cond2);
            }
            assert(false);
        }
    }
}

/// After every matching archetype has been processed, the processed-list
/// description coincides with the full iteration description.
pub(crate) proof fn lemma_done_post_full(
    w0: World,
    w1: World,
    fetches: Seq<FetchKind>,
    filters: Seq<FilterKind>,
    last: u32,
    cur: u32,
)
    requires
        w0.wf(),
        w0.archetypes@.len() <= usize::MAX,
        spec_done_post(
            w0,
            w1,
            fetches,
            filters,
            crate::dynamic_query::spec_matching_ids(
                w0,
                fetches,
                filters,
                w0.archetypes@.len() as int,
            ),
            last,
            cur,
        ),
    ensures
        spec_iterate_post(w0, w1, fetches, filters, last, cur),
{
    let ids = crate::dynamic_query::spec_matching_ids(
        w0,
        fetches,
        filters,
        w0.archetypes@.len() as int,
    );
    assert forall|t: usize| true implies ids.contains(t) == (t < w0.archetypes@.len()
        && spec_query_matches(fetches, filters, w0.archetypes@[t as int])) by {
        crate::dynamic_query::lemma_matching_ids_contains(
            w0,
            fetches,
            filters,
            w0.archetypes@.len() as int,
            t,
        );
    }
    assert forall|t: int, ci: int, r2: int|
        0 <= t < w0.tables@.len() && 0 <= ci < w0.tables@[t].columns@.len() && 0 <= r2
            < w0.tables@[t].columns@[ci].ticks@.len() implies (
    #[trigger] w1.tables@[t].columns@[ci].ticks@[r2]).changed == if spec_slot_written(
        w0,
        fetches,
        filters,
        t,
        r2,
        w0.tables@[t].columns@[ci].component_id,
        last,
        cur,
    ) {
        cur
    } else {
        w0.tables@[t].columns@[ci].ticks@[r2].changed
    } by {
        let c = w0.tables@[t].columns@[ci].component_id;
        assert(ids.contains(t as usize) == (t < w0.archetypes@.len() && spec_query_matches(
            fetches,
            filters,
            w0.archetypes@[t],
        )));
        if spec_slot_written(w0, fetches, filters, t, r2, c, last, cur) {
            assert(ids.contains(t as usize));
        }
    }
    assert forall|c: int, k: int|
        0 <= c < w0.sparse_sets@.len() && 0 <= k < w0.sparse_sets@[c].entries@.len() implies (
    #[trigger] w1.sparse_sets@[c].entries@[k]).ticks.changed == if w0.components@[c].storage_type
        is SparseSet && (exists|a: int, r2: int|
        spec_slot_written(
            w0,
            fetches,
            filters,
            a,
            r2,
            w0.sparse_sets@[c].component_id,
            last,
            cur,
        ) && #[trigger] w0.spec_entity_at(a, r2) == w0.sparse_sets@[c].entries@[k].entity) {
        cur
    } else {
        w0.sparse_sets@[c].entries@[k].ticks.changed
    } by {
        let sc = w0.sparse_sets@[c].component_id;
        let cond_done = w0.components@[c].storage_type is SparseSet && (exists|j: int, r2: int|
            0 <= j < ids.len() && 0 <= r2 && spec_slot_written(
                w0,
                fetches,
                filters,
                ids[j] as int,
                r2,
                sc,
                last,
                cur,
            ) && #[trigger] w0.spec_entity_at(ids[j] as int, r2)
                == w0.sparse_sets@[c].entries@[k].entity);
        let cond_full = w0.components@[c].storage_type is SparseSet && (exists|a: int, r2: int|
            spec_slot_written(
                w0,
                fetches,
                filters,
                a,
                r2,
                sc,
                last,
                cur,
            ) && #[trigger] w0.spec_entity_at(a, r2) == w0.sparse_sets@[c].entries@[k].entity);
        if cond_done {
            let (j, r2) = choose|j: int, r2: int|
                0 <= j < ids.len() && 0 <= r2 && spec_slot_written(
                    w0,
                    fetches,
                    filters,
                    ids[j] as int,
                    r2,
                    sc,
                    last,
                    cur,
                ) && #[trigger] w0.spec_entity_at(ids[j] as int, r2)
                    == w0.sparse_sets@[c].entries@[k].entity;
            assert(cond_full);
        }
        if cond_full {
            let (a, r2) = choose|a: int, r2: int|
                spec_slot_written(
                    w0,
                    fetches,
                    filters,
                    a,
                    r2,
                    sc,
                    last,
                    cur,
                ) && #[trigger] w0.spec_entity_at(a, r2) == w0.sparse_sets@[c].entries@[k].entity;
            assert(a < w0.archetypes@.len());
            assert(ids.contains(a as usize));
            let j = choose|j: int| 0 <= j < ids.len() && ids[j] == a as usize;
            assert(w0.spec_entity_at(ids[j] as int, r2) == w0.sparse_sets@[c].entries@[k].entity);
            assert(cond_done);
        }
        assert(w1.sparse_sets@[c].entries@[k].ticks.changed == if cond_done {
            cur
        } else {
            w0.sparse_sets@[c].entries@[k].ticks.changed
        });
    }
}

/// The per-field fetch state resolved when entering one archetype: the
/// request, the field's storage kind, and (for table storage) its column.
#[derive(Clone, Copy, Debug)]
pub struct ComponentFetchState {
    pub fetch_kind: FetchKind,
    pub storage_type: StorageType,
    pub column: usize,
}

/// The per-field filter state resolved when entering one archetype.
#[derive(Clone, Copy, Debug)]
pub struct ComponentFilterState {
    pub kind: FilterKind,
    pub storage_type: StorageType,
    pub column: usize,
}

/// The fetch states describe the requests, with correct storage kinds and
/// column indices for archetype `a`.
pub open spec fn spec_fetch_states_ok(
    w: World,
    a: int,
    fetches: Seq<FetchKind>,
    states: Seq<ComponentFetchState>,
) -> bool {
    &&& states.len() == fetches.len()
    &&& forall|i: int|
        0 <= i < states.len() ==> {
            let c = spec_fetch_comp(fetches[i]);
            &&& (#[trigger] states[i]).fetch_kind == fetches[i]
            &&& states[i].storage_type == w.spec_storage(c)
            &&& (w.spec_storage(c) is Table ==> states[i].column == spec_the_col(
                w.tables@[a].columns@,
                c,
            ) && states[i].column < w.tables@[a].columns@.len())
        }
}

/// The filter states describe the requests, with correct storage kinds and
/// column indices for archetype `a`.
pub open spec fn spec_filter_states_ok(
    w: World,
    a: int,
    filters: Seq<FilterKind>,
    states: Seq<ComponentFilterState>,
) -> bool {
    &&& states.len() == filters.len()
    &&& forall|i: int|
        0 <= i < states.len() ==> {
            let c = spec_filter_comp(filters[i]);
            &&& (#[trigger] states[i]).kind == filters[i]
            &&& states[i].storage_type == w.spec_storage(c)
            &&& ((filters[i] is Changed || filters[i] is Added) && w.spec_storage(c) is Table
                ==> states[i].column == spec_the_col(w.tables@[a].columns@, c) && states[i].column
                < w.tables@[a].columns@.len())
        }
}

/// Resolve the fetch states for one archetype: storage kind from the
/// registry, column index from the archetype's table.
fn resolve_fetch_states(world: &World, fetches: &Vec<FetchKind>, a: usize) -> (r: Vec<
    ComponentFetchState,
>)
    requires
        world.wf(),
        a < world.archetypes@.len(),
        forall|i: int|
            0 <= i < fetches@.len() ==> world.spec_known(
                spec_fetch_comp(#[trigger] fetches@[i]),
            ),
        forall|i: int|
            0 <= i < fetches@.len() ==> world.archetypes@[a as int].spec_has(
                spec_fetch_comp(#[trigger] fetches@[i]),
            ),
    ensures
        spec_fetch_states_ok(*world, a as int, fetches@, r@),
{
    proof {
        assert(world.arch_components_wf(a as int));
        assert(world.arch_table_wf(a as int));
    }
    let tid = world.archetypes[a].table_id;
    let n = fetches.len();
    let mut out: Vec<ComponentFetchState> = Vec::new();
    let mut i: usize = 0;
    while i < n
        invariant
            i <= n,
            n == fetches@.len(),
            world.wf(),
            a < world.archetypes@.len(),
            tid == a,
            forall|i2: int|
                0 <= i2 < fetches@.len() ==> world.spec_known(
                    spec_fetch_comp(#[trigger] fetches@[i2]),
                ),
            forall|i2: int|
                0 <= i2 < fetches@.len() ==> world.archetypes@[a as int].spec_has(
                    spec_fetch_comp(#[trigger] fetches@[i2]),
                ),
            out@.len() == i,
            forall|i2: int|
                0 <= i2 < i ==> {
                    let c = spec_fetch_comp(fetches@[i2]);
                    &&& (#[trigger] out@[i2]).fetch_kind == fetches@[i2]
                    &&& out@[i2].storage_type == world.spec_storage(c)
                    &&& (world.spec_storage(c) is Table ==> out@[i2].column == spec_the_col(
                        world.tables@[a as int].columns@,
                        c,
                    ) && out@[i2].column < world.tables@[a as int].columns@.len())
                },
        decreases n - i,
    {
        let k = fetches[i];
        let c = k.component_id();
        let st = world.components[c.id].storage_type;
        let col: usize = match st {
            StorageType::Table => {
                match world.tables[tid].column_index(c) {
                    Some(ci) => {
                        proof {
                            assert(world.arch_components_wf(a as int));
                            assert(world.arch_table_wf(a as int));
                            crate::world::lemma_the_col_is(
                                world.tables@[a as int].columns@,
                                c,
                                ci as int,
                            );
                        }
                        ci
                    },
                    None => {
                        proof {
                            assert(world.arch_components_wf(a as int));
                            assert(world.arch_table_wf(a as int));
                            let idx = choose|j: int|
                                0 <= j < world.archetypes@[a as int].components@.len()
                                    && world.archetypes@[a as int].components@[j] == c;
                            assert(crate::world::spec_has_col(
                                world.tables@[a as int].columns@,
                                c,
                            ));
                            assert(false);
                        }
                        vstd::pervasive::unreached()
                    },
                }
            },
            StorageType::SparseSet => 0,
        };
        out.push(ComponentFetchState { fetch_kind: k, storage_type: st, column: col });
        i = i + 1;
    }
    out
}

/// Resolve the filter states for one archetype.
fn resolve_filter_states(world: &World, filters: &Vec<FilterKind>, a: usize) -> (r: Vec<
    ComponentFilterState,
>)
    requires
        world.wf(),
        a < world.archetypes@.len(),
        forall|i: int|
            0 <= i < filters@.len() ==> world.spec_known(
                spec_filter_comp(#[trigger] filters@[i]),
            ),
        forall|i: int|
            0 <= i < filters@.len() ==> spec_filter_matches(
                #[trigger] filters@[i],
                world.archetypes@[a as int],
            ),
    ensures
        spec_filter_states_ok(*world, a as int, filters@, r@),
{
    proof {
        assert(world.arch_components_wf(a as int));
        assert(world.arch_table_wf(a as int));
    }
    let tid = world.archetypes[a].table_id;
    let n = filters.len();
    let mut out: Vec<ComponentFilterState> = Vec::new();
    let mut i: usize = 0;
    while i < n
        invariant
            i <= n,
            n == filters@.len(),
            world.wf(),
            a < world.archetypes@.len(),
            tid == a,
            forall|i2: int|
                0 <= i2 < filters@.len() ==> world.spec_known(
                    spec_filter_comp(#[trigger] filters@[i2]),
                ),
            forall|i2: int|
                0 <= i2 < filters@.len() ==> spec_filter_matches(
                    #[trigger] filters@[i2],
                    world.archetypes@[a as int],
                ),
            out@.len() == i,
            forall|i2: int|
                0 <= i2 < i ==> {
                    let c = spec_filter_comp(filters@[i2]);
                    &&& (#[trigger] out@[i2]).kind == filters@[i2]
                    &&& out@[i2].storage_type == world.spec_storage(c)
                    &&& ((filters@[i2] is Changed || filters@[i2] is Added) && world.spec_storage(
                        c,
                    ) is Table ==> out@[i2].column == spec_the_col(
                        world.tables@[a as int].columns@,
                        c,
                    ) && out@[i2].column < world.tables@[a as int].columns@.len())
                },
        decreases n - i,
    {
        let k = filters[i];
        let c = k.component_id();
        let st = world.components[c.id].storage_type;
        let needs_column = match k {
            FilterKind::Changed(_) => true,
            FilterKind::Added(_) => true,
            FilterKind::With(_) => false,
            FilterKind::Without(_) => false,
        };
        let is_table = match st {
            StorageType::Table => true,
            StorageType::SparseSet => false,
        };
        let col: usize = if needs_column && is_table {
            match world.tables[tid].column_index(c) {
                Some(ci) => {
                    proof {
                        assert(world.arch_components_wf(a as int));
                        assert(world.arch_table_wf(a as int));
                        crate::world::lemma_the_col_is(
                            world.tables@[a as int].columns@,
                            c,
                            ci as int,
                        );
                    }
                    ci
                },
                None => {
                    proof {
                        assert(world.arch_components_wf(a as int));
                        assert(world.arch_table_wf(a as int));
                        assert(spec_filter_matches(filters@[i as int], world.archetypes@[a as int]));
                        assert(world.archetypes@[a as int].spec_has(c));
                        let idx = choose|j: int|
                            0 <= j < world.archetypes@[a as int].components@.len()
                                && world.archetypes@[a as int].components@[j] == c;
                        assert(crate::world::spec_has_col(world.tables@[a as int].columns@, c));
                        assert(false);
                    }
                    vstd::pervasive::unreached()
                },
            }
        } else {
            0
        };
        out.push(ComponentFilterState { kind: k, storage_type: st, column: col });
        i = i + 1;
    }
    out
}

/// Read the change metadata of one slot.
fn read_slot_ticks(
    world: &World,
    a: usize,
    row: usize,
    c: ComponentId,
    is_table: bool,
    column: usize,
) -> (r: ComponentTicks)
    requires
        world.wf(),
        world.spec_pos_valid(a as int, row as int),
        world.archetypes@[a as int].spec_has(c),
        is_table == (world.spec_storage(c) is Table),
        is_table ==> column == spec_the_col(world.tables@[a as int].columns@, c) && column
            < world.tables@[a as int].columns@.len(),
    ensures
        r == world.spec_slot_ticks(a as int, row as int, c),
{
    proof {
        assert(world.arch_components_wf(a as int));
        assert(world.arch_table_wf(a as int));
        assert(world.arch_sparse_wf(a as int));
    }
    let tid = world.archetypes[a].table_id;
    if is_table {
        world.tables[tid].columns[column].ticks[row]
    } else {
        let e = world.archetypes[a].entities[row];
        proof {
            let idx = choose|j: int|
                0 <= j < world.archetypes@[a as int].components@.len()
                    && world.archetypes@[a as int].components@[j] == c;
            assert(crate::world::spec_has_entry(
                world.sparse_sets@[c.id as int].entries@,
                world.archetypes@[a as int].entities@[row as int],
            ));
        }
        match world.sparse_sets[c.id].find(e) {
            Some(k) => {
                proof {
                    crate::world::lemma_the_entry_is(
                        world.sparse_sets@[c.id as int].entries@,
                        e,
                        k as int,
                    );
                }
                world.sparse_sets[c.id].entries[k].ticks
            },
            None => {
                proof {
                    assert(false);
                }
                vstd::pervasive::unreached()
            },
        }
    }
}

/// Read the value of one slot.
fn read_slot_value(
    world: &World,
    a: usize,
    row: usize,
    c: ComponentId,
    is_table: bool,
    column: usize,
) -> (r: u64)
    requires
        world.wf(),
        world.spec_pos_valid(a as int, row as int),
        world.archetypes@[a as int].spec_has(c),
        is_table == (world.spec_storage(c) is Table),
        is_table ==> column == spec_the_col(world.tables@[a as int].columns@, c) && column
            < world.tables@[a as int].columns@.len(),
    ensures
        r == world.spec_slot_value(a as int, row as int, c),
{
    proof {
        assert(world.arch_components_wf(a as int));
        assert(world.arch_table_wf(a as int));
        assert(world.arch_sparse_wf(a as int));
    }
    let tid = world.archetypes[a].table_id;
    if is_table {
        world.tables[tid].columns[column].values[row]
    } else {
        let e = world.archetypes[a].entities[row];
        proof {
            let idx = choose|j: int|
                0 <= j < world.archetypes@[a as int].components@.len()
                    && world.archetypes@[a as int].components@[j] == c;
            assert(crate::world::spec_has_entry(
                world.sparse_sets@[c.id as int].entries@,
                world.archetypes@[a as int].entities@[row as int],
            ));
        }
        match world.sparse_sets[c.id].find(e) {
            Some(k) => {
                proof {
                    crate::world::lemma_the_entry_is(
                        world.sparse_sets@[c.id as int].entries@,
                        e,
                        k as int,
                    );
                }
                world.sparse_sets[c.id].entries[k].value
            },
            None => {
                proof {
                    assert(false);
                }
                vstd::pervasive::unreached()
            },
        }
    }
}

/// Evaluate every filter of the query for one row.
fn row_passes_filters(
    world: &World,
    states: &Vec<ComponentFilterState>,
    a: usize,
    row: usize,
    last: u32,
    cur: u32,
    Ghost(filters): Ghost<Seq<FilterKind>>,
) -> (r: bool)
    requires
        world.wf(),
        world.spec_pos_valid(a as int, row as int),
        spec_filter_states_ok(*world, a as int, filters, states@),
        forall|i: int|
            0 <= i < filters.len() ==> world.spec_known(spec_filter_comp(#[trigger] filters[i])),
        forall|i: int|
            0 <= i < filters.len() ==> spec_filter_matches(
                #[trigger] filters[i],
                world.archetypes@[a as int],
            ),
    ensures
        r == spec_row_passes(*world, filters, a as int, row as int, last, cur),
{
    let n = states.len();
    let mut i: usize = 0;
    while i < n
        invariant
            i <= n,
            n == states@.len(),
            world.wf(),
            world.spec_pos_valid(a as int, row as int),
            spec_filter_states_ok(*world, a as int, filters, states@),
            forall|i2: int|
                0 <= i2 < filters.len() ==> world.spec_known(
                    spec_filter_comp(#[trigger] filters[i2]),
                ),
            forall|i2: int|
                0 <= i2 < filters.len() ==> spec_filter_matches(
                    #[trigger] filters[i2],
                    world.archetypes@[a as int],
                ),
            forall|i2: int|
                0 <= i2 < i ==> spec_filter_passes(
                    *world,
                    #[trigger] filters[i2],
                    a as int,
                    row as int,
                    last,
                    cur,
                ),
        decreases n - i,
    {
        let st = states[i];
        let passes = match st.kind {
            FilterKind::With(_) => true,
            FilterKind::Without(_) => true,
            FilterKind::Changed(c) => {
                proof {
                    assert(spec_filter_matches(filters[i as int], world.archetypes@[a as int]));
                }
                let is_table = match st.storage_type {
                    StorageType::Table => true,
                    StorageType::SparseSet => false,
                };
                let ticks = read_slot_ticks(world, a, row, c, is_table, st.column);
                ticks.is_changed(last, cur)
            },
            FilterKind::Added(c) => {
                proof {
                    assert(spec_filter_matches(filters[i as int], world.archetypes@[a as int]));
                }
                let is_table = match st.storage_type {
                    StorageType::Table => true,
                    StorageType::SparseSet => false,
                };
                let ticks = read_slot_ticks(world, a, row, c, is_table, st.column);
                ticks.is_added(last, cur)
            },
        };
        if !passes {
            proof {
                assert(!spec_filter_passes(*world, filters[i as int], a as int, row as int, last, cur));
            }
            return false;
        }
        i = i + 1;
    }
    true
}

/// Restricting the requests to one more element adds exactly that
/// element's write, if it is one.
pub proof fn lemma_writes_comp_take(fetches: Seq<FetchKind>, i: int, x: ComponentId)
    requires
        0 <= i < fetches.len(),
    ensures
        spec_writes_comp(fetches.take(i + 1), x) == (spec_writes_comp(fetches.take(i), x)
            || fetches[i] == FetchKind::RefMut(x)),
{
    let t1 = fetches.take(i + 1);
    let t0 = fetches.take(i);
    if spec_writes_comp(t1, x) {
        let j = choose|j: int| 0 <= j < t1.len() && #[trigger] t1[j] == FetchKind::RefMut(x);
        assert(t1[j] == fetches[j]);
        if j < i {
            assert(t0[j] == fetches[j]);
            assert(spec_writes_comp(t0, x));
        }
    }
    if spec_writes_comp(t0, x) {
        let j = choose|j: int| 0 <= j < t0.len() && #[trigger] t0[j] == FetchKind::RefMut(x);
        assert(t0[j] == fetches[j]);
        assert(t1[j] == fetches[j]);
        assert(spec_writes_comp(t1, x));
    }
    if fetches[i] == FetchKind::RefMut(x) {
        assert(t1[i] == fetches[i]);
        assert(spec_writes_comp(t1, x));
    }
}

/// A shared fetch leaves the tick state untouched.
proof fn lemma_fetch_post_take_nonwrite(
    w0: World,
    w1: World,
    fetches: Seq<FetchKind>,
    i: int,
    a: int,
    row: int,
    cur: u32,
)
    requires
        0 <= i < fetches.len(),
        !(fetches[i] is RefMut),
        spec_fetch_post(w0, w1, fetches.take(i), a, row, cur),
    ensures
        spec_fetch_post(w0, w1, fetches.take(i + 1), a, row, cur),
{
    assert forall|x: ComponentId| true implies #[trigger] spec_writes_comp(fetches.take(i + 1), x)
        == spec_writes_comp(fetches.take(i), x) by {
        lemma_writes_comp_take(fetches, i, x);
    }
    assert forall|t: int, ci: int, r2: int|
        0 <= t < w0.tables@.len() && 0 <= ci < w0.tables@[t].columns@.len() && 0 <= r2
            < w0.tables@[t].columns@[ci].ticks@.len() implies (
    #[trigger] w1.tables@[t].columns@[ci].ticks@[r2]).changed == if t == a && r2 == row
        && spec_writes_comp(fetches.take(i + 1), w0.tables@[t].columns@[ci].component_id) {
        cur
    } else {
        w0.tables@[t].columns@[ci].ticks@[r2].changed
    } by {
        assert(spec_writes_comp(fetches.take(i + 1), w0.tables@[t].columns@[ci].component_id)
            == spec_writes_comp(fetches.take(i), w0.tables@[t].columns@[ci].component_id));
    }
    assert forall|c: int, k: int|
        0 <= c < w0.sparse_sets@.len() && 0 <= k < w0.sparse_sets@[c].entries@.len() implies (
    #[trigger] w1.sparse_sets@[c].entries@[k]).ticks.changed == if w0.components@[c].storage_type
        is SparseSet && spec_writes_comp(fetches.take(i + 1), w0.sparse_sets@[c].component_id)
        && w0.sparse_sets@[c].entries@[k].entity == w0.spec_entity_at(a, row) {
        cur
    } else {
        w0.sparse_sets@[c].entries@[k].ticks.changed
    } by {
        assert(spec_writes_comp(fetches.take(i + 1), w0.sparse_sets@[c].component_id)
            == spec_writes_comp(fetches.take(i), w0.sparse_sets@[c].component_id));
    }
}

/// Set the changed tick of one table slot.
fn bump_table_tick(world: &mut World, t: usize, ci: usize, row: usize, cur: u32)
    requires
        t < old(world).tables@.len(),
        ci < old(world).tables@[t as int].columns@.len(),
        row < old(world).tables@[t as int].columns@[ci as int].ticks@.len(),
    ensures
        final(world).id == old(world).id,
        final(world).components@ == old(world).components@,
        final(world).archetypes@ == old(world).archetypes@,
        final(world).sparse_sets@ == old(world).sparse_sets@,
        final(world).next_entity_index == old(world).next_entity_index,
        final(world).last_change_tick == old(world).last_change_tick,
        final(world).change_tick == old(world).change_tick,
        final(world).tables@.len() == old(world).tables@.len(),
        forall|t2: int|
            0 <= t2 < old(world).tables@.len() && t2 != t ==> #[trigger] final(world).tables@[t2]
                == old(world).tables@[t2],
        final(world).tables@[t as int].columns@.len() == old(world).tables@[t as int].columns@.len(),
        forall|c2: int|
            0 <= c2 < old(world).tables@[t as int].columns@.len() && c2 != ci ==> #[trigger] final(world).tables@[t as int].columns@[c2] == old(world).tables@[t as int].columns@[c2],
        final(world).tables@[t as int].columns@[ci as int].component_id == old(world).tables@[t as int].columns@[ci as int].component_id,
        final(world).tables@[t as int].columns@[ci as int].values@ == old(world).tables@[t as int].columns@[ci as int].values@,
        final(world).tables@[t as int].columns@[ci as int].ticks@ == old(world).tables@[t as int].columns@[ci as int].ticks@.update(
            row as int,
            (ComponentTicks {
                added: old(world).tables@[t as int].columns@[ci as int].ticks@[row as int].added,
                changed: cur,
            }),
        ),
{
    let tb = &mut world.tables[t];
    let col = &mut tb.columns[ci];
    let mut tk = col.ticks[row];
    tk.changed = cur;
    col.ticks.set(row, tk);
}

/// Set the changed tick of one sparse entry.
fn bump_sparse_tick(world: &mut World, c: usize, k: usize, cur: u32)
    requires
        c < old(world).sparse_sets@.len(),
        k < old(world).sparse_sets@[c as int].entries@.len(),
    ensures
        final(world).id == old(world).id,
        final(world).components@ == old(world).components@,
        final(world).archetypes@ == old(world).archetypes@,
        final(world).tables@ == old(world).tables@,
        final(world).next_entity_index == old(world).next_entity_index,
        final(world).last_change_tick == old(world).last_change_tick,
        final(world).change_tick == old(world).change_tick,
        final(world).sparse_sets@.len() == old(world).sparse_sets@.len(),
        forall|c2: int|
            0 <= c2 < old(world).sparse_sets@.len() && c2 != c ==> #[trigger] final(world).sparse_sets@[c2] == old(world).sparse_sets@[c2],
        final(world).sparse_sets@[c as int].component_id == old(world).sparse_sets@[c as int].component_id,
        final(world).sparse_sets@[c as int].entries@ == old(world).sparse_sets@[c as int].entries@.update(
            k as int,
            (SparseEntry {
                entity: old(world).sparse_sets@[c as int].entries@[k as int].entity,
                value: old(world).sparse_sets@[c as int].entries@[k as int].value,
                ticks: (ComponentTicks {
                    added: old(world).sparse_sets@[c as int].entries@[k as int].ticks.added,
                    changed: cur,
                }),
            }),
        ),
{
    let ss = &mut world.sparse_sets[c];
    let mut en = ss.entries[k];
    en.ticks.changed = cur;
    ss.entries.set(k, en);
}

/// Bumping the table slot of an exclusively fetched field extends the
/// fetch description by that request.
#[verifier::rlimit(60)]
proof fn lemma_fetch_post_step_table(
    w0: World,
    w1: World,
    w2: World,
    fetches: Seq<FetchKind>,
    i: int,
    a: int,
    row: int,
    cur: u32,
)
    requires
        w0.wf(),
        0 <= i < fetches.len(),
        fetches[i] is RefMut,
        w0.spec_pos_valid(a, row),
        w0.archetypes@[a].spec_has(spec_fetch_comp(fetches[i])),
        w0.spec_storage(spec_fetch_comp(fetches[i])) is Table,
        spec_fetch_post(w0, w1, fetches.take(i), a, row, cur),
        ({
            let c = spec_fetch_comp(fetches[i]);
            let ci = spec_the_col(w0.tables@[a].columns@, c);
            &&& w2.id == w1.id
            &&& w2.components@ == w1.components@
            &&& w2.archetypes@ == w1.archetypes@
            &&& w2.sparse_sets@ == w1.sparse_sets@
            &&& w2.next_entity_index == w1.next_entity_index
            &&& w2.last_change_tick == w1.last_change_tick
            &&& w2.change_tick == w1.change_tick
            &&& w2.tables@.len() == w1.tables@.len()
            &&& forall|t2: int|
                0 <= t2 < w1.tables@.len() && t2 != a ==> #[trigger] w2.tables@[t2]
                    == w1.tables@[t2]
            &&& w2.tables@[a].columns@.len() == w1.tables@[a].columns@.len()
            &&& forall|c2: int|
                0 <= c2 < w1.tables@[a].columns@.len() && c2 != ci ==> #[trigger] w2.tables@[a].columns@[c2]
                    == w1.tables@[a].columns@[c2]
            &&& w2.tables@[a].columns@[ci].component_id == w1.tables@[a].columns@[ci].component_id
            &&& w2.tables@[a].columns@[ci].values@ == w1.tables@[a].columns@[ci].values@
            &&& w2.tables@[a].columns@[ci].ticks@ == w1.tables@[a].columns@[ci].ticks@.update(
                row,
                (ComponentTicks {
                    added: w1.tables@[a].columns@[ci].ticks@[row].added,
                    changed: cur,
                }),
            )
        }),
    ensures
        spec_fetch_post(w0, w2, fetches.take(i + 1), a, row, cur),
{
    let c = spec_fetch_comp(fetches[i]);
    let ci = spec_the_col(w0.tables@[a].columns@, c);
    lemma_slot_layout(w0, w1, a, row, c);
    assert(spec_skeleton_same(w0, w2)) by {
        assert forall|t: int, ci2: int|
            0 <= t < w0.tables@.len() && 0 <= ci2 < w0.tables@[t].columns@.len() implies {
            &&& (#[trigger] w2.tables@[t].columns@[ci2]).component_id
                == w0.tables@[t].columns@[ci2].component_id
            &&& w2.tables@[t].columns@[ci2].values@ == w0.tables@[t].columns@[ci2].values@
            &&& w2.tables@[t].columns@[ci2].ticks@.len() == w0.tables@[t].columns@[ci2].ticks@.len()
        } by {
            assert(w1.tables@[t].columns@[ci2].component_id
                == w0.tables@[t].columns@[ci2].component_id);
            assert(w1.tables@[t].columns@[ci2].values@ == w0.tables@[t].columns@[ci2].values@);
            assert(w1.tables@[t].columns@[ci2].ticks@.len()
                == w0.tables@[t].columns@[ci2].ticks@.len());
            if t == a && ci2 == ci {
                assert(w2.tables@[t].columns@[ci2].values@ == w1.tables@[t].columns@[ci2].values@);
            }
        }
        assert forall|t: int, ci2: int, r2: int|
            0 <= t < w0.tables@.len() && 0 <= ci2 < w0.tables@[t].columns@.len() && 0 <= r2
                < w0.tables@[t].columns@[ci2].ticks@.len() implies (
        #[trigger] w2.tables@[t].columns@[ci2].ticks@[r2]).added
            == w0.tables@[t].columns@[ci2].ticks@[r2].added by {
            assert(w1.tables@[t].columns@[ci2].ticks@[r2].added
                == w0.tables@[t].columns@[ci2].ticks@[r2].added);
        }
        assert forall|c2: int, k: int|
            0 <= c2 < w0.sparse_sets@.len() && 0 <= k < w0.sparse_sets@[c2].entries@.len() implies {
            &&& (#[trigger] w2.sparse_sets@[c2].entries@[k]).entity
                == w0.sparse_sets@[c2].entries@[k].entity
            &&& w2.sparse_sets@[c2].entries@[k].value == w0.sparse_sets@[c2].entries@[k].value
            &&& w2.sparse_sets@[c2].entries@[k].ticks.added
                == w0.sparse_sets@[c2].entries@[k].ticks.added
        } by {
            assert(w2.sparse_sets@[c2] == w1.sparse_sets@[c2]);
            assert(w1.sparse_sets@[c2].entries@[k].entity == w0.sparse_sets@[c2].entries@[k].entity);
            assert(w1.sparse_sets@[c2].entries@[k].value == w0.sparse_sets@[c2].entries@[k].value);
            assert(w1.sparse_sets@[c2].entries@[k].ticks.added
                == w0.sparse_sets@[c2].entries@[k].ticks.added);
        }
    }
    assert forall|t: int, ci2: int, r2: int|
        0 <= t < w0.tables@.len() && 0 <= ci2 < w0.tables@[t].columns@.len() && 0 <= r2
            < w0.tables@[t].columns@[ci2].ticks@.len() implies (
    #[trigger] w2.tables@[t].columns@[ci2].ticks@[r2]).changed == if t == a && r2 == row
        && spec_writes_comp(fetches.take(i + 1), w0.tables@[t].columns@[ci2].component_id) {
        cur
    } else {
        w0.tables@[t].columns@[ci2].ticks@[r2].changed
    } by {
        let cc = w0.tables@[t].columns@[ci2].component_id;
        lemma_writes_comp_take(fetches, i, cc);
        assert(w1.tables@[t].columns@[ci2].ticks@[r2].changed == if t == a && r2 == row
            && spec_writes_comp(fetches.take(i), cc) {
            cur
        } else {
            w0.tables@[t].columns@[ci2].ticks@[r2].changed
        });
        assert(w1.tables@[t].columns@[ci2].ticks@.len() == w0.tables@[t].columns@[ci2].ticks@.len());
        if t == a && ci2 == ci {
            if r2 == row {
                assert(w2.tables@[t].columns@[ci2].ticks@[r2].changed == cur);
                assert(cc == c);
                assert(fetches[i] == FetchKind::RefMut(c)) by {
                    assert(fetches[i] is RefMut && spec_fetch_comp(fetches[i]) == c);
                }
                assert(spec_writes_comp(fetches.take(i + 1), cc));
            } else {
                assert(w2.tables@[t].columns@[ci2].ticks@[r2].changed
                    == w1.tables@[t].columns@[ci2].ticks@[r2].changed);
            }
        } else {
            assert(w2.tables@[t].columns@[ci2] == w1.tables@[t].columns@[ci2]);
            if t == a && r2 == row {
                assert(cc != c) by {
                    if ci2 != ci && cc == c {
                        assert(w0.arch_components_wf(a));
                        assert(w0.arch_table_wf(a));
                        assert(w0.tables@[a].columns@[ci].component_id == c);
                        assert(false);
                    }
                }
                assert(fetches[i] != FetchKind::RefMut(cc));
                assert(spec_writes_comp(fetches.take(i + 1), cc) == spec_writes_comp(
                    fetches.take(i),
                    cc,
                ));
            }
        }
    }
    assert forall|c2: int, k: int|
        0 <= c2 < w0.sparse_sets@.len() && 0 <= k < w0.sparse_sets@[c2].entries@.len() implies (
    #[trigger] w2.sparse_sets@[c2].entries@[k]).ticks.changed == if w0.components@[c2].storage_type
        is SparseSet && spec_writes_comp(fetches.take(i + 1), w0.sparse_sets@[c2].component_id)
        && w0.sparse_sets@[c2].entries@[k].entity == w0.spec_entity_at(a, row) {
        cur
    } else {
        w0.sparse_sets@[c2].entries@[k].ticks.changed
    } by {
        let sc = w0.sparse_sets@[c2].component_id;
        lemma_writes_comp_take(fetches, i, sc);
        assert(w2.sparse_sets@[c2] == w1.sparse_sets@[c2]);
        if sc == c {
            assert(w0.components@[c2].storage_type == w0.components@[c.id as int].storage_type)
                by {
                assert(w0.sparse_sets@[c2].component_id.id == c2);
            }
            assert(!(w0.components@[c2].storage_type is SparseSet));
        } else {
            assert(fetches[i] != FetchKind::RefMut(sc));
            assert(spec_writes_comp(fetches.take(i + 1), sc) == spec_writes_comp(
                fetches.take(i),
                sc,
            ));
        }
    }
}

/// Bumping the sparse entry of an exclusively fetched field extends the
/// fetch description by that request.
#[verifier::rlimit(60)]
proof fn lemma_fetch_post_step_sparse(
    w0: World,
    w1: World,
    w2: World,
    fetches: Seq<FetchKind>,
    i: int,
    a: int,
    row: int,
    cur: u32,
)
    requires
        w0.wf(),
        0 <= i < fetches.len(),
        fetches[i] is RefMut,
        w0.spec_pos_valid(a, row),
        w0.archetypes@[a].spec_has(spec_fetch_comp(fetches[i])),
        w0.spec_storage(spec_fetch_comp(fetches[i])) is SparseSet,
        spec_fetch_post(w0, w1, fetches.take(i), a, row, cur),
        ({
            let c = spec_fetch_comp(fetches[i]);
            let k = spec_the_entry(w0.sparse_sets@[c.id as int].entries@, w0.spec_entity_at(a, row));
            &&& w2.id == w1.id
            &&& w2.components@ == w1.components@
            &&& w2.archetypes@ == w1.archetypes@
            &&& w2.tables@ == w1.tables@
            &&& w2.next_entity_index == w1.next_entity_index
            &&& w2.last_change_tick == w1.last_change_tick
            &&& w2.change_tick == w1.change_tick
            &&& w2.sparse_sets@.len() == w1.sparse_sets@.len()
            &&& forall|c2: int|
                0 <= c2 < w1.sparse_sets@.len() && c2 != c.id ==> #[trigger] w2.sparse_sets@[c2]
                    == w1.sparse_sets@[c2]
            &&& w2.sparse_sets@[c.id as int].component_id
                == w1.sparse_sets@[c.id as int].component_id
            &&& w2.sparse_sets@[c.id as int].entries@
                == w1.sparse_sets@[c.id as int].entries@.update(
                k,
                (SparseEntry {
                    entity: w1.sparse_sets@[c.id as int].entries@[k].entity,
                    value: w1.sparse_sets@[c.id as int].entries@[k].value,
                    ticks: (ComponentTicks {
                        added: w1.sparse_sets@[c.id as int].entries@[k].ticks.added,
                        changed: cur,
                    }),
                }),
            )
        }),
    ensures
        spec_fetch_post(w0, w2, fetches.take(i + 1), a, row, cur),
{
    let c = spec_fetch_comp(fetches[i]);
    let k = spec_the_entry(w0.sparse_sets@[c.id as int].entries@, w0.spec_entity_at(a, row));
    lemma_slot_layout(w0, w1, a, row, c);
    assert(spec_skeleton_same(w0, w2)) by {
        assert forall|c2: int, k2: int|
            0 <= c2 < w0.sparse_sets@.len() && 0 <= k2 < w0.sparse_sets@[c2].entries@.len()
                implies {
            &&& (#[trigger] w2.sparse_sets@[c2].entries@[k2]).entity
                == w0.sparse_sets@[c2].entries@[k2].entity
            &&& w2.sparse_sets@[c2].entries@[k2].value == w0.sparse_sets@[c2].entries@[k2].value
            &&& w2.sparse_sets@[c2].entries@[k2].ticks.added
                == w0.sparse_sets@[c2].entries@[k2].ticks.added
        } by {
            assert(w1.sparse_sets@[c2].entries@[k2].entity
                == w0.sparse_sets@[c2].entries@[k2].entity);
            assert(w1.sparse_sets@[c2].entries@[k2].value == w0.sparse_sets@[c2].entries@[k2].value);
            assert(w1.sparse_sets@[c2].entries@[k2].ticks.added
                == w0.sparse_sets@[c2].entries@[k2].ticks.added);
            assert(w1.sparse_sets@[c2].entries@.len() == w0.sparse_sets@[c2].entries@.len());
            if c2 == c.id && k2 == k {
                assert(w2.sparse_sets@[c2].entries@[k2].entity
                    == w1.sparse_sets@[c2].entries@[k2].entity);
            }
        }
        assert forall|t: int, ci2: int|
            0 <= t < w0.tables@.len() && 0 <= ci2 < w0.tables@[t].columns@.len() implies {
            &&& (#[trigger] w2.tables@[t].columns@[ci2]).component_id
                == w0.tables@[t].columns@[ci2].component_id
            &&& w2.tables@[t].columns@[ci2].values@ == w0.tables@[t].columns@[ci2].values@
            &&& w2.tables@[t].columns@[ci2].ticks@.len() == w0.tables@[t].columns@[ci2].ticks@.len()
        } by {
            assert(w2.tables@[t] == w1.tables@[t]);
            assert(w1.tables@[t].columns@[ci2].component_id
                == w0.tables@[t].columns@[ci2].component_id);
            assert(w1.tables@[t].columns@[ci2].values@ == w0.tables@[t].columns@[ci2].values@);
            assert(w1.tables@[t].columns@[ci2].ticks@.len()
                == w0.tables@[t].columns@[ci2].ticks@.len());
        }
        assert forall|t: int, ci2: int, r2: int|
            0 <= t < w0.tables@.len() && 0 <= ci2 < w0.tables@[t].columns@.len() && 0 <= r2
                < w0.tables@[t].columns@[ci2].ticks@.len() implies (
        #[trigger] w2.tables@[t].columns@[ci2].ticks@[r2]).added
            == w0.tables@[t].columns@[ci2].ticks@[r2].added by {
            assert(w2.tables@[t] == w1.tables@[t]);
            assert(w1.tables@[t].columns@[ci2].ticks@[r2].added
                == w0.tables@[t].columns@[ci2].ticks@[r2].added);
        }
    }
    assert forall|t: int, ci2: int, r2: int|
        0 <= t < w0.tables@.len() && 0 <= ci2 < w0.tables@[t].columns@.len() && 0 <= r2
            < w0.tables@[t].columns@[ci2].ticks@.len() implies (
    #[trigger] w2.tables@[t].columns@[ci2].ticks@[r2]).changed == if t == a && r2 == row
        && spec_writes_comp(fetches.take(i + 1), w0.tables@[t].columns@[ci2].component_id) {
        cur
    } else {
        w0.tables@[t].columns@[ci2].ticks@[r2].changed
    } by {
        let cc = w0.tables@[t].columns@[ci2].component_id;
        lemma_writes_comp_take(fetches, i, cc);
        assert(w2.tables@[t] == w1.tables@[t]);
        assert(w1.tables@[t].columns@[ci2].ticks@[r2].changed == if t == a && r2 == row
            && spec_writes_comp(fetches.take(i), cc) {
            cur
        } else {
            w0.tables@[t].columns@[ci2].ticks@[r2].changed
        });
        assert(cc != c) by {
            assert(w0.arch_components_wf(t));
            assert(w0.arch_table_wf(t));
            if cc == c {
                assert(w0.spec_storage(cc) is Table);
                assert(false);
            }
        }
        assert(fetches[i] != FetchKind::RefMut(cc));
        assert(spec_writes_comp(fetches.take(i + 1), cc) == spec_writes_comp(fetches.take(i), cc));
    }
    assert forall|c2: int, k2: int|
        0 <= c2 < w0.sparse_sets@.len() && 0 <= k2 < w0.sparse_sets@[c2].entries@.len() implies (
    #[trigger] w2.sparse_sets@[c2].entries@[k2]).ticks.changed == if w0.components@[c2].storage_type
        is SparseSet && spec_writes_comp(fetches.take(i + 1), w0.sparse_sets@[c2].component_id)
        && w0.sparse_sets@[c2].entries@[k2].entity == w0.spec_entity_at(a, row) {
        cur
    } else {
        w0.sparse_sets@[c2].entries@[k2].ticks.changed
    } by {
        let sc = w0.sparse_sets@[c2].component_id;
        lemma_writes_comp_take(fetches, i, sc);
        assert(w1.sparse_sets@[c2].entries@.len() == w0.sparse_sets@[c2].entries@.len());
        assert(w1.sparse_sets@[c2].entries@[k2].ticks.changed == if w0.components@[c2].storage_type
            is SparseSet && spec_writes_comp(fetches.take(i), sc)
            && w0.sparse_sets@[c2].entries@[k2].entity == w0.spec_entity_at(a, row) {
            cur
        } else {
            w0.sparse_sets@[c2].entries@[k2].ticks.changed
        });
        assert(w0.sparse_sets@[c2].component_id.id == c2);
        if c2 == c.id {
            assert(sc == c) by {
                assert(sc.id == c.id);
            }
            assert(fetches[i] == FetchKind::RefMut(c)) by {
                assert(fetches[i] is RefMut && spec_fetch_comp(fetches[i]) == c);
            }
            assert(spec_writes_comp(fetches.take(i + 1), sc));
            assert(w1.sparse_sets@[c2].entries@[k2].entity
                == w0.sparse_sets@[c2].entries@[k2].entity);
            if k2 == k {
                assert(w2.sparse_sets@[c2].entries@[k2].ticks.changed == cur);
                assert(w0.sparse_sets@[c2].entries@[k2].entity == w0.spec_entity_at(a, row));
                assert(w0.components@[c2].storage_type is SparseSet);
            } else {
                assert(w2.sparse_sets@[c2].entries@[k2] == w1.sparse_sets@[c2].entries@[k2]);
                assert(w0.sparse_sets@[c2].entries@[k2].entity != w0.spec_entity_at(a, row)) by {
                    assert(w0.sparse_sets@[c2].entries@[k].entity == w0.spec_entity_at(a, row));
                    if k2 < k {
                        assert(w0.sparse_sets@[c2].entries@[k2].entity
                            != w0.sparse_sets@[c2].entries@[k].entity);
                    } else {
                        assert(w0.sparse_sets@[c2].entries@[k].entity
                            != w0.sparse_sets@[c2].entries@[k2].entity);
                    }
                }
            }
        } else {
            assert(w2.sparse_sets@[c2] == w1.sparse_sets@[c2]);
            assert(sc != c) by {
                assert(sc.id == c2);
            }
            assert(fetches[i] != FetchKind::RefMut(sc));
            assert(spec_writes_comp(fetches.take(i + 1), sc) == spec_writes_comp(
                fetches.take(i),
                sc,
            ));
        }
    }
}

/// Fetch every requested field of one row, in request order. Producing an
/// exclusive handle records the write immediately: the slot's changed tick
/// becomes `cur` whether or not the handle is used.
fn fetch_row(
    world: &mut World,
    states: &Vec<ComponentFetchState>,
    a: usize,
    row: usize,
    last: u32,
    cur: u32,
    Ghost(fetches): Ghost<Seq<FetchKind>>,
) -> (r: Vec<FetchResult>)
    requires
        old(world).wf(),
        old(world).spec_pos_valid(a as int, row as int),
        spec_fetch_states_ok(*old(world), a as int, fetches, states@),
        forall|i: int|
            0 <= i < fetches.len() ==> old(world).spec_known(
                spec_fetch_comp(#[trigger] fetches[i]),
            ),
        forall|i: int|
            0 <= i < fetches.len() ==> old(world).archetypes@[a as int].spec_has(
                spec_fetch_comp(#[trigger] fetches[i]),
            ),
    ensures
        final(world).wf(),
        r@ == spec_fetch_row(*old(world), fetches, a as int, row as int, last, cur),
        spec_fetch_post(*old(world), *final(world), fetches, a as int, row as int, cur),
{
    let ghost w0 = *old(world);
    let n = states.len();
    let mut out: Vec<FetchResult> = Vec::new();
    let mut i: usize = 0;
    proof {
        assert(fetches.take(0) =~= Seq::<FetchKind>::empty());
        assert(spec_fetch_post(w0, *world, fetches.take(0), a as int, row as int, cur));
    }
    while i < n
        invariant
            i <= n,
            w0 == *old(world),
            w0.wf(),
            w0.spec_pos_valid(a as int, row as int),
            n == states@.len(),
            n == fetches.len(),
            spec_fetch_states_ok(w0, a as int, fetches, states@),
            forall|i2: int|
                0 <= i2 < fetches.len() ==> w0.spec_known(spec_fetch_comp(#[trigger] fetches[i2])),
            forall|i2: int|
                0 <= i2 < fetches.len() ==> w0.archetypes@[a as int].spec_has(
                    spec_fetch_comp(#[trigger] fetches[i2]),
                ),
            out@.len() == i,
            forall|j: int|
                0 <= j < i ==> out@[j] == spec_fetch_one(
                    w0,
                    a as int,
                    row as int,
                    fetches[j],
                    last,
                    cur,
                ),
            spec_fetch_post(w0, *world, fetches.take(i as int), a as int, row as int, cur),
        decreases n - i,
    {
        let ghost w_pre = *world;
        let st = states[i];
        let c = st.fetch_kind.component_id();
        let ghost cg = spec_fetch_comp(fetches[i as int]);
        proof {
            assert(states@[i as int].fetch_kind == fetches[i as int]);
            assert(c == cg);
            lemma_skeleton_wf(w0, w_pre);
            lemma_slot_layout(w0, w_pre, a as int, row as int, cg);
        }
        let is_table = match st.storage_type {
            StorageType::Table => true,
            StorageType::SparseSet => false,
        };
        let v = read_slot_value(world, a, row, c, is_table, st.column);
        proof {
            assert(v == w0.spec_slot_value(a as int, row as int, cg));
        }
        let is_mut = match st.fetch_kind {
            FetchKind::Ref(_) => false,
            FetchKind::RefMut(_) => true,
        };
        if is_mut {
            if is_table {
                let tid = world.archetypes[a].table_id;
                proof {
                    assert(w_pre.arch_components_wf(a as int));
                    assert(w_pre.arch_table_wf(a as int));
                    assert(tid == a);
                    assert(st.column == spec_the_col(w0.tables@[a as int].columns@, cg));
                    assert(w_pre.tables@[a as int].columns@[st.column as int].ticks@.len()
                        == w0.archetypes@[a as int].entities@.len());
                }
                bump_table_tick(world, tid, st.column, row, cur);
                proof {
                    lemma_fetch_post_step_table(
                        w0,
                        w_pre,
                        *world,
                        fetches,
                        i as int,
                        a as int,
                        row as int,
                        cur,
                    );
                }
            } else {
                let e = world.archetypes[a].entities[row];
                proof {
                    assert(w_pre.arch_components_wf(a as int));
                    assert(w_pre.arch_sparse_wf(a as int));
                    let idx = choose|j: int|
                        0 <= j < w_pre.archetypes@[a as int].components@.len()
                            && w_pre.archetypes@[a as int].components@[j] == cg;
                    assert(crate::world::spec_has_entry(
                        w_pre.sparse_sets@[cg.id as int].entries@,
                        w_pre.archetypes@[a as int].entities@[row as int],
                    ));
                }
                match world.sparse_sets[c.id].find(e) {
                    Some(k) => {
                        proof {
                            crate::world::lemma_the_entry_is(
                                w_pre.sparse_sets@[cg.id as int].entries@,
                                e,
                                k as int,
                            );
                            assert(k as int == spec_the_entry(
                                w0.sparse_sets@[cg.id as int].entries@,
                                w0.spec_entity_at(a as int, row as int),
                            ));
                        }
                        bump_sparse_tick(world, c.id, k, cur);
                        proof {
                            lemma_fetch_post_step_sparse(
                                w0,
                                w_pre,
                                *world,
                                fetches,
                                i as int,
                                a as int,
                                row as int,
                                cur,
                            );
                        }
                    },
                    None => {
                        proof {
                            assert(false);
                        }
                        vstd::pervasive::unreached()
                    },
                }
            }
            out.push(FetchResult::RefMut { value: v, last_change_tick: last, change_tick: cur });
            proof {
                assert(fetches[i as int] is RefMut);
                assert(out@[i as int] == spec_fetch_one(
                    w0,
                    a as int,
                    row as int,
                    fetches[i as int],
                    last,
                    cur,
                ));
            }
        } else {
            out.push(FetchResult::Ref { value: v });
            proof {
                lemma_fetch_post_take_nonwrite(
                    w0,
                    *world,
                    fetches,
                    i as int,
                    a as int,
                    row as int,
                    cur,
                );
                assert(fetches[i as int] is Ref);
                assert(out@[i as int] == spec_fetch_one(
                    w0,
                    a as int,
                    row as int,
                    fetches[i as int],
                    last,
                    cur,
                ));
            }
        }
        i = i + 1;
    }
    proof {
        assert(fetches.take(n as int) =~= fetches);
        lemma_skeleton_wf(w0, *world);
        assert(out@ =~= spec_fetch_row(w0, fetches, a as int, row as int, last, cur));
    }
    out
}

/// Resolved fetch states stay valid while ticks change.
proof fn lemma_fetch_states_ok_skeleton(
    w0: World,
    w1: World,
    a: int,
    fetches: Seq<FetchKind>,
    states: Seq<ComponentFetchState>,
)
    requires
        w0.wf(),
        spec_skeleton_same(w0, w1),
        0 <= a < w0.archetypes@.len(),
        spec_fetch_states_ok(w0, a, fetches, states),
        forall|i: int|
            0 <= i < fetches.len() ==> w0.archetypes@[a].spec_has(
                spec_fetch_comp(#[trigger] fetches[i]),
            ),
    ensures
        spec_fetch_states_ok(w1, a, fetches, states),
{
    assert(w0.arch_components_wf(a));
    assert(w0.arch_table_wf(a));
    assert forall|i: int| 0 <= i < states.len() implies {
        let c = spec_fetch_comp(fetches[i]);
        &&& (#[trigger] states[i]).fetch_kind == fetches[i]
        &&& states[i].storage_type == w1.spec_storage(c)
        &&& (w1.spec_storage(c) is Table ==> states[i].column == spec_the_col(
            w1.tables@[a].columns@,
            c,
        ) && states[i].column < w1.tables@[a].columns@.len())
    } by {
        let c = spec_fetch_comp(fetches[i]);
        assert(w1.spec_storage(c) == w0.spec_storage(c));
        if w0.spec_storage(c) is Table {
            let idx = choose|j: int|
                0 <= j < w0.archetypes@[a].components@.len() && w0.archetypes@[a].components@[j]
                    == c;
            assert(crate::world::spec_has_col(w0.tables@[a].columns@, c));
            let ci = spec_the_col(w0.tables@[a].columns@, c);
            assert(w0.tables@[a].columns@[ci].component_id == c);
            assert(w1.tables@[a].columns@[ci].component_id == c);
            assert forall|c1: int, c2: int| 0 <= c1 < c2 < w1.tables@[a].columns@.len() implies (
            #[trigger] w1.tables@[a].columns@[c1]).component_id != (
            #[trigger] w1.tables@[a].columns@[c2]).component_id by {
                assert(w1.tables@[a].columns@[c1].component_id
                    == w0.tables@[a].columns@[c1].component_id);
                assert(w1.tables@[a].columns@[c2].component_id
                    == w0.tables@[a].columns@[c2].component_id);
            }
            crate::world::lemma_the_col_is(w1.tables@[a].columns@, c, ci);
        }
    }
}

/// Resolved filter states stay valid while ticks change.
proof fn lemma_filter_states_ok_skeleton(
    w0: World,
    w1: World,
    a: int,
    filters: Seq<FilterKind>,
    states: Seq<ComponentFilterState>,
)
    requires
        w0.wf(),
        spec_skeleton_same(w0, w1),
        0 <= a < w0.archetypes@.len(),
        spec_filter_states_ok(w0, a, filters, states),
        forall|i: int|
            0 <= i < filters.len() ==> spec_filter_matches(
                #[trigger] filters[i],
                w0.archetypes@[a],
            ),
    ensures
        spec_filter_states_ok(w1, a, filters, states),
{
    assert(w0.arch_components_wf(a));
    assert(w0.arch_table_wf(a));
    assert forall|i: int| 0 <= i < states.len() implies {
        let c = spec_filter_comp(filters[i]);
        &&& (#[trigger] states[i]).kind == filters[i]
        &&& states[i].storage_type == w1.spec_storage(c)
        &&& ((filters[i] is Changed || filters[i] is Added) && w1.spec_storage(c) is Table
            ==> states[i].column == spec_the_col(w1.tables@[a].columns@, c) && states[i].column
            < w1.tables@[a].columns@.len())
    } by {
        let c = spec_filter_comp(filters[i]);
        assert(w1.spec_storage(c) == w0.spec_storage(c));
        if (filters[i] is Changed || filters[i] is Added) && w0.spec_storage(c) is Table {
            assert(spec_filter_matches(filters[i], w0.archetypes@[a]));
            assert(w0.archetypes@[a].spec_has(c));
            let idx = choose|j: int|
                0 <= j < w0.archetypes@[a].components@.len() && w0.archetypes@[a].components@[j]
                    == c;
            assert(crate::world::spec_has_col(w0.tables@[a].columns@, c));
            let ci = spec_the_col(w0.tables@[a].columns@, c);
            assert(w0.tables@[a].columns@[ci].component_id == c);
            assert(w1.tables@[a].columns@[ci].component_id == c);
            assert forall|c1: int, c2: int| 0 <= c1 < c2 < w1.tables@[a].columns@.len() implies (
            #[trigger] w1.tables@[a].columns@[c1]).component_id != (
            #[trigger] w1.tables@[a].columns@[c2]).component_id by {
                assert(w1.tables@[a].columns@[c1].component_id
                    == w0.tables@[a].columns@[c1].component_id);
                assert(w1.tables@[a].columns@[c2].component_id
                    == w0.tables@[a].columns@[c2].component_id);
            }
            crate::world::lemma_the_col_is(w1.tables@[a].columns@, c, ci);
        }
    }
}

/// Walk one matched archetype: resolve the per-field states once, then for
/// each row evaluate the filters and, when they pass, fetch the requested
/// fields and append the result.
fn run_archetype(
    world: &mut World,
    fetches: &Vec<FetchKind>,
    filters: &Vec<FilterKind>,
    a: usize,
    last: u32,
    cur: u32,
    out: &mut Vec<crate::dynamic_query::DynamicQueryItem>,
)
    requires
        old(world).wf(),
        a < old(world).archetypes@.len(),
        spec_query_matches(fetches@, filters@, old(world).archetypes@[a as int]),
        forall|i: int|
            0 <= i < fetches@.len() ==> old(world).spec_known(
                spec_fetch_comp(#[trigger] fetches@[i]),
            ),
        forall|i: int|
            0 <= i < filters@.len() ==> old(world).spec_known(
                spec_filter_comp(#[trigger] filters@[i]),
            ),
    ensures
        final(world).wf(),
        spec_arch_upto_post(
            *old(world),
            *final(world),
            fetches@,
            filters@,
            a as int,
            old(world).archetypes@[a as int].entities@.len() as int,
            last,
            cur,
        ),
        ({
            let rows = spec_arch_rows(
                *old(world),
                filters@,
                a as int,
                old(world).archetypes@[a as int].entities@.len() as int,
                last,
                cur,
            );
            &&& final(out)@.len() == old(out)@.len() + rows.len()
            &&& forall|j: int| 0 <= j < old(out)@.len() ==> final(out)@[j] == old(out)@[j]
            &&& forall|j: int|
                0 <= j < rows.len() ==> {
                    &&& (#[trigger] final(out)@[old(out)@.len() + j]).entity == old(
                        world,
                    ).spec_entity_at(a as int, rows[j])
                    &&& final(out)@[old(out)@.len() + j].items@ == spec_fetch_row(
                        *old(world),
                        fetches@,
                        a as int,
                        rows[j],
                        last,
                        cur,
                    )
                }
        }),
{
    let ghost w0 = *old(world);
    proof {
        assert forall|i: int| 0 <= i < fetches@.len() implies w0.archetypes@[a as int].spec_has(
            spec_fetch_comp(#[trigger] fetches@[i]),
        ) by {
            assert(spec_fetch_matches(fetches@[i], w0.archetypes@[a as int]));
        }
        assert forall|i: int| 0 <= i < filters@.len() implies spec_filter_matches(
            #[trigger] filters@[i],
            w0.archetypes@[a as int],
        ) by {}
    }
    let fetch_states = resolve_fetch_states(world, fetches, a);
    let filter_states = resolve_filter_states(world, filters, a);
    let nrows = world.archetypes[a].entities.len();
    let mut row: usize = 0;
    while row < nrows
        invariant
            row <= nrows,
            w0 == *old(world),
            w0.wf(),
            a < w0.archetypes@.len(),
            nrows == w0.archetypes@[a as int].entities@.len(),
            spec_query_matches(fetches@, filters@, w0.archetypes@[a as int]),
            forall|i: int|
                0 <= i < fetches@.len() ==> w0.spec_known(
                    spec_fetch_comp(#[trigger] fetches@[i]),
                ),
            forall|i: int|
                0 <= i < filters@.len() ==> w0.spec_known(
                    spec_filter_comp(#[trigger] filters@[i]),
                ),
            forall|i: int|
                0 <= i < fetches@.len() ==> w0.archetypes@[a as int].spec_has(
                    spec_fetch_comp(#[trigger] fetches@[i]),
                ),
            forall|i: int|
                0 <= i < filters@.len() ==> spec_filter_matches(
                    #[trigger] filters@[i],
                    w0.archetypes@[a as int],
                ),
            spec_fetch_states_ok(w0, a as int, fetches@, fetch_states@),
            spec_filter_states_ok(w0, a as int, filters@, filter_states@),
            spec_arch_upto_post(w0, *world, fetches@, filters@, a as int, row as int, last, cur),
            out@.len() == old(out)@.len() + spec_arch_rows(
                w0,
                filters@,
                a as int,
                row as int,
                last,
                cur,
            ).len(),
            forall|j: int| 0 <= j < old(out)@.len() ==> out@[j] == old(out)@[j],
            forall|j: int|
                0 <= j < spec_arch_rows(w0, filters@, a as int, row as int, last, cur).len() ==> {
                    let rows = spec_arch_rows(w0, filters@, a as int, row as int, last, cur);
                    &&& (#[trigger] out@[old(out)@.len() + j]).entity == w0.spec_entity_at(
                        a as int,
                        rows[j],
                    )
                    &&& out@[old(out)@.len() + j].items@ == spec_fetch_row(
                        w0,
                        fetches@,
                        a as int,
                        rows[j],
                        last,
                        cur,
                    )
                },
        decreases nrows - row,
    {
        let ghost w_pre = *world;
        proof {
            lemma_skeleton_wf(w0, w_pre);
            lemma_fetch_states_ok_skeleton(w0, w_pre, a as int, fetches@, fetch_states@);
            lemma_filter_states_ok_skeleton(w0, w_pre, a as int, filters@, filter_states@);
            lemma_row_state_same_upto(
                w0,
                w_pre,
                fetches@,
                filters@,
                a as int,
                row as int,
                row as int,
                last,
                cur,
            );
            assert(w_pre.archetypes@[a as int] == w0.archetypes@[a as int]);
        }
        let pass = row_passes_filters(world, &filter_states, a, row, last, cur, Ghost(filters@));
        if pass {
            proof {
                assert(spec_row_passes(w0, filters@, a as int, row as int, last, cur));
            }
            let e = world.archetypes[a].entities[row];
            let items = fetch_row(world, &fetch_states, a, row, last, cur, Ghost(fetches@));
            proof {
                lemma_arch_upto_step_fetch(
                    w0,
                    w_pre,
                    *world,
                    fetches@,
                    filters@,
                    a as int,
                    row as int,
                    last,
                    cur,
                );
            }
            out.push(crate::dynamic_query::DynamicQueryItem { entity: e, items });
            proof {
                let rows1 = spec_arch_rows(w0, filters@, a as int, row + 1, last, cur);
                let rows0 = spec_arch_rows(w0, filters@, a as int, row as int, last, cur);
                assert(rows1 == rows0.push(row as int));
                assert(e == w0.spec_entity_at(a as int, row as int));
                assert(items@ == spec_fetch_row(w0, fetches@, a as int, row as int, last, cur));
                assert forall|j: int| 0 <= j < rows1.len() implies {
                    &&& (#[trigger] out@[old(out)@.len() + j]).entity == w0.spec_entity_at(
                        a as int,
                        rows1[j],
                    )
                    &&& out@[old(out)@.len() + j].items@ == spec_fetch_row(
                        w0,
                        fetches@,
                        a as int,
                        rows1[j],
                        last,
                        cur,
                    )
                } by {
                    if j < rows0.len() {
                        assert(rows1[j] == rows0[j]);
                    } else {
                        assert(rows1[j] == row as int);
                    }
                }
            }
        } else {
            proof {
                assert(!spec_row_passes(w0, filters@, a as int, row as int, last, cur));
                lemma_arch_upto_step_skip(
                    w0,
                    *world,
                    fetches@,
                    filters@,
                    a as int,
                    row as int,
                    last,
                    cur,
                );
                assert(spec_arch_rows(w0, filters@, a as int, row + 1, last, cur)
                    == spec_arch_rows(w0, filters@, a as int, row as int, last, cur));
            }
        }
        row = row + 1;
    }
    proof {
        lemma_skeleton_wf(w0, *world);
    }
}

/// The passing-row sequence lists, in increasing order, exactly the rows
/// below `n` that pass every filter.
pub proof fn lemma_arch_rows_facts(
    w: World,
    filters: Seq<FilterKind>,
    a: int,
    n: int,
    last: u32,
    cur: u32,
)
    requires
        0 <= n,
    ensures
        forall|j: int|
            0 <= j < spec_arch_rows(w, filters, a, n, last, cur).len() ==> {
                &&& 0 <= #[trigger] spec_arch_rows(w, filters, a, n, last, cur)[j] < n
                &&& spec_row_passes(
                    w,
                    filters,
                    a,
                    spec_arch_rows(w, filters, a, n, last, cur)[j],
                    last,
                    cur,
                )
            },
        forall|j1: int, j2: int|
            0 <= j1 < j2 < spec_arch_rows(w, filters, a, n, last, cur).len()
                ==> spec_arch_rows(w, filters, a, n, last, cur)[j1] < spec_arch_rows(
                w,
                filters,
                a,
                n,
                last,
                cur,
            )[j2],
        forall|row: int|
            0 <= row < n ==> (spec_arch_rows(w, filters, a, n, last, cur).contains(row)
                <==> spec_row_passes(w, filters, a, row, last, cur)),
    decreases n,
{
    if n > 0 {
        lemma_arch_rows_facts(w, filters, a, n - 1, last, cur);
        let pre = spec_arch_rows(w, filters, a, n - 1, last, cur);
        let rows = spec_arch_rows(w, filters, a, n, last, cur);
        assert forall|row: int| 0 <= row < n implies (rows.contains(row) <==> spec_row_passes(
            w,
            filters,
            a,
            row,
            last,
            cur,
        )) by {
            if rows.contains(row) {
                let j = choose|j: int| 0 <= j < rows.len() && rows[j] == row;
                if j < pre.len() {
                    assert(pre[j] == row);
                    assert(pre.contains(row));
                }
            }
            if row < n - 1 && spec_row_passes(w, filters, a, row, last, cur) {
                assert(pre.contains(row));
                let j = choose|j: int| 0 <= j < pre.len() && pre[j] == row;
                assert(rows[j] == row);
            }
            if row == n - 1 && spec_row_passes(w, filters, a, row, last, cur) {
                assert(rows[rows.len() - 1] == row);
            }
        }
    }
}

/// Evaluate every filter for one row of a table, reading the tick columns
/// directly: usable only when every filter's field is table-backed.
fn row_passes_filters_table(
    world: &World,
    states: &Vec<ComponentFilterState>,
    t: usize,
    row: usize,
    last: u32,
    cur: u32,
    Ghost(filters): Ghost<Seq<FilterKind>>,
) -> (r: bool)
    requires
        world.wf(),
        world.spec_pos_valid(t as int, row as int),
        spec_filter_states_ok(*world, t as int, filters, states@),
        forall|i: int|
            0 <= i < filters.len() ==> world.spec_known(spec_filter_comp(#[trigger] filters[i])),
        forall|i: int|
            0 <= i < filters.len() ==> spec_filter_matches(
                #[trigger] filters[i],
                world.archetypes@[t as int],
            ),
        forall|i: int|
            0 <= i < filters.len() ==> world.spec_storage(
                spec_filter_comp(#[trigger] filters[i]),
            ) is Table,
    ensures
        r == spec_row_passes(*world, filters, t as int, row as int, last, cur),
{
    proof {
        assert(world.arch_components_wf(t as int));
        assert(world.arch_table_wf(t as int));
    }
    let n = states.len();
    let mut i: usize = 0;
    while i < n
        invariant
            i <= n,
            n == states@.len(),
            world.wf(),
            world.spec_pos_valid(t as int, row as int),
            world.archetypes@[t as int].table_id == t,
            spec_filter_states_ok(*world, t as int, filters, states@),
            forall|i2: int|
                0 <= i2 < filters.len() ==> world.spec_known(
                    spec_filter_comp(#[trigger] filters[i2]),
                ),
            forall|i2: int|
                0 <= i2 < filters.len() ==> spec_filter_matches(
                    #[trigger] filters[i2],
                    world.archetypes@[t as int],
                ),
            forall|i2: int|
                0 <= i2 < filters.len() ==> world.spec_storage(
                    spec_filter_comp(#[trigger] filters[i2]),
                ) is Table,
            forall|i2: int|
                0 <= i2 < i ==> spec_filter_passes(
                    *world,
                    #[trigger] filters[i2],
                    t as int,
                    row as int,
                    last,
                    cur,
                ),
        decreases n - i,
    {
        let st = states[i];
        let needs_ticks = match st.kind {
            FilterKind::With(_) => false,
            FilterKind::Without(_) => false,
            FilterKind::Changed(_) => true,
            FilterKind::Added(_) => true,
        };
        if needs_ticks {
            proof {
                assert(world.arch_components_wf(t as int));
                assert(world.arch_table_wf(t as int));
                assert(spec_filter_matches(filters[i as int], world.archetypes@[t as int]));
                assert(world.spec_storage(spec_filter_comp(filters[i as int])) is Table);
            }
            let ticks = world.tables[t].columns[st.column].ticks[row];
            proof {
                assert(ticks == world.spec_slot_ticks(
                    t as int,
                    row as int,
                    spec_filter_comp(filters[i as int]),
                ));
            }
            let passes = match st.kind {
                FilterKind::Changed(_) => ticks.is_changed(last, cur),
                _ => ticks.is_added(last, cur),
            };
            if !passes {
                proof {
                    assert(!spec_filter_passes(
                        *world,
                        filters[i as int],
                        t as int,
                        row as int,
                        last,
                        cur,
                    ));
                }
                return false;
            }
        }
        i = i + 1;
    }
    true
}

/// Fetch every requested field of one table row by direct column access:
/// usable only when every requested field is table-backed.
fn fetch_row_table(
    world: &mut World,
    states: &Vec<ComponentFetchState>,
    t: usize,
    row: usize,
    last: u32,
    cur: u32,
    Ghost(fetches): Ghost<Seq<FetchKind>>,
) -> (r: Vec<FetchResult>)
    requires
        old(world).wf(),
        old(world).spec_pos_valid(t as int, row as int),
        spec_fetch_states_ok(*old(world), t as int, fetches, states@),
        forall|i: int|
            0 <= i < fetches.len() ==> old(world).spec_known(
                spec_fetch_comp(#[trigger] fetches[i]),
            ),
        forall|i: int|
            0 <= i < fetches.len() ==> old(world).archetypes@[t as int].spec_has(
                spec_fetch_comp(#[trigger] fetches[i]),
            ),
        forall|i: int|
            0 <= i < fetches.len() ==> old(world).spec_storage(
                spec_fetch_comp(#[trigger] fetches[i]),
            ) is Table,
    ensures
        final(world).wf(),
        r@ == spec_fetch_row(*old(world), fetches, t as int, row as int, last, cur),
        spec_fetch_post(*old(world), *final(world), fetches, t as int, row as int, cur),
{
    let ghost w0 = *old(world);
    let n = states.len();
    let mut out: Vec<FetchResult> = Vec::new();
    let mut i: usize = 0;
    proof {
        assert(fetches.take(0) =~= Seq::<FetchKind>::empty());
        assert(spec_fetch_post(w0, *world, fetches.take(0), t as int, row as int, cur));
    }
    while i < n
        invariant
            i <= n,
            w0 == *old(world),
            w0.wf(),
            w0.spec_pos_valid(t as int, row as int),
            n == states@.len(),
            n == fetches.len(),
            spec_fetch_states_ok(w0, t as int, fetches, states@),
            forall|i2: int|
                0 <= i2 < fetches.len() ==> w0.spec_known(spec_fetch_comp(#[trigger] fetches[i2])),
            forall|i2: int|
                0 <= i2 < fetches.len() ==> w0.archetypes@[t as int].spec_has(
                    spec_fetch_comp(#[trigger] fetches[i2]),
                ),
            forall|i2: int|
                0 <= i2 < fetches.len() ==> w0.spec_storage(
                    spec_fetch_comp(#[trigger] fetches[i2]),
                ) is Table,
            out@.len() == i,
            forall|j: int|
                0 <= j < i ==> out@[j] == spec_fetch_one(
                    w0,
                    t as int,
                    row as int,
                    fetches[j],
                    last,
                    cur,
                ),
            spec_fetch_post(w0, *world, fetches.take(i as int), t as int, row as int, cur),
        decreases n - i,
    {
        let ghost w_pre = *world;
        let st = states[i];
        let ghost cg = spec_fetch_comp(fetches[i as int]);
        proof {
            assert(states@[i as int].fetch_kind == fetches[i as int]);
            lemma_skeleton_wf(w0, w_pre);
            lemma_slot_layout(w0, w_pre, t as int, row as int, cg);
            assert(w_pre.arch_components_wf(t as int));
            assert(w_pre.arch_table_wf(t as int));
        }
        let tid = world.archetypes[t].table_id;
        let v = world.tables[tid].columns[st.column].values[row];
        proof {
            assert(v == w0.spec_slot_value(t as int, row as int, cg));
        }
        let is_mut = match st.fetch_kind {
            FetchKind::Ref(_) => false,
            FetchKind::RefMut(_) => true,
        };
        if is_mut {
            proof {
                assert(st.column == spec_the_col(w0.tables@[t as int].columns@, cg));
                assert(w_pre.tables@[t as int].columns@[st.column as int].ticks@.len()
                    == w0.archetypes@[t as int].entities@.len());
            }
            bump_table_tick(world, tid, st.column, row, cur);
            proof {
                lemma_fetch_post_step_table(
                    w0,
                    w_pre,
                    *world,
                    fetches,
                    i as int,
                    t as int,
                    row as int,
                    cur,
                );
            }
            out.push(FetchResult::RefMut { value: v, last_change_tick: last, change_tick: cur });
            proof {
                assert(fetches[i as int] is RefMut);
                assert(out@[i as int] == spec_fetch_one(
                    w0,
                    t as int,
                    row as int,
                    fetches[i as int],
                    last,
                    cur,
                ));
            }
        } else {
            out.push(FetchResult::Ref { value: v });
            proof {
                lemma_fetch_post_take_nonwrite(
                    w0,
                    *world,
                    fetches,
                    i as int,
                    t as int,
                    row as int,
                    cur,
                );
                assert(fetches[i as int] is Ref);
                assert(out@[i as int] == spec_fetch_one(
                    w0,
                    t as int,
                    row as int,
                    fetches[i as int],
                    last,
                    cur,
                ));
            }
        }
        i = i + 1;
    }
    proof {
        assert(fetches.take(n as int) =~= fetches);
        lemma_skeleton_wf(w0, *world);
        assert(out@ =~= spec_fetch_row(w0, fetches, t as int, row as int, last, cur));
    }
    out
}

/// Walk one matched table by contiguous row index, with every field read
/// or written through its column. Chosen over the general walk only when
/// every touched field is table-backed.
fn run_table(
    world: &mut World,
    fetches: &Vec<FetchKind>,
    filters: &Vec<FilterKind>,
    t: usize,
    last: u32,
    cur: u32,
    out: &mut Vec<crate::dynamic_query::DynamicQueryItem>,
)
    requires
        old(world).wf(),
        t < old(world).archetypes@.len(),
        spec_query_matches(fetches@, filters@, old(world).archetypes@[t as int]),
        forall|i: int|
            0 <= i < fetches@.len() ==> old(world).spec_known(
                spec_fetch_comp(#[trigger] fetches@[i]),
            ),
        forall|i: int|
            0 <= i < filters@.len() ==> old(world).spec_known(
                spec_filter_comp(#[trigger] filters@[i]),
            ),
        forall|i: int|
            0 <= i < fetches@.len() ==> old(world).spec_storage(
                spec_fetch_comp(#[trigger] fetches@[i]),
            ) is Table,
        forall|i: int|
            0 <= i < filters@.len() ==> old(world).spec_storage(
                spec_filter_comp(#[trigger] filters@[i]),
            ) is Table,
    ensures
        final(world).wf(),
        spec_arch_upto_post(
            *old(world),
            *final(world),
            fetches@,
            filters@,
            t as int,
            old(world).archetypes@[t as int].entities@.len() as int,
            last,
            cur,
        ),
        ({
            let rows = spec_arch_rows(
                *old(world),
                filters@,
                t as int,
                old(world).archetypes@[t as int].entities@.len() as int,
                last,
                cur,
            );
            &&& final(out)@.len() == old(out)@.len() + rows.len()
            &&& forall|j: int| 0 <= j < old(out)@.len() ==> final(out)@[j] == old(out)@[j]
            &&& forall|j: int|
                0 <= j < rows.len() ==> {
                    &&& (#[trigger] final(out)@[old(out)@.len() + j]).entity == old(
                        world,
                    ).spec_entity_at(t as int, rows[j])
                    &&& final(out)@[old(out)@.len() + j].items@ == spec_fetch_row(
                        *old(world),
                        fetches@,
                        t as int,
                        rows[j],
                        last,
                        cur,
                    )
                }
        }),
{
    let ghost w0 = *old(world);
    proof {
        assert forall|i: int| 0 <= i < fetches@.len() implies w0.archetypes@[t as int].spec_has(
            spec_fetch_comp(#[trigger] fetches@[i]),
        ) by {
            assert(spec_fetch_matches(fetches@[i], w0.archetypes@[t as int]));
        }
        assert forall|i: int| 0 <= i < filters@.len() implies spec_filter_matches(
            #[trigger] filters@[i],
            w0.archetypes@[t as int],
        ) by {}
    }
    let fetch_states = resolve_fetch_states(world, fetches, t);
    let filter_states = resolve_filter_states(world, filters, t);
    let nrows = world.archetypes[t].entities.len();
    let mut row: usize = 0;
    while row < nrows
        invariant
            row <= nrows,
            w0 == *old(world),
            w0.wf(),
            t < w0.archetypes@.len(),
            nrows == w0.archetypes@[t as int].entities@.len(),
            spec_query_matches(fetches@, filters@, w0.archetypes@[t as int]),
            forall|i: int|
                0 <= i < fetches@.len() ==> w0.spec_known(
                    spec_fetch_comp(#[trigger] fetches@[i]),
                ),
            forall|i: int|
                0 <= i < filters@.len() ==> w0.spec_known(
                    spec_filter_comp(#[trigger] filters@[i]),
                ),
            forall|i: int|
                0 <= i < fetches@.len() ==> w0.archetypes@[t as int].spec_has(
                    spec_fetch_comp(#[trigger] fetches@[i]),
                ),
            forall|i: int|
                0 <= i < filters@.len() ==> spec_filter_matches(
                    #[trigger] filters@[i],
                    w0.archetypes@[t as int],
                ),
            forall|i: int|
                0 <= i < fetches@.len() ==> w0.spec_storage(
                    spec_fetch_comp(#[trigger] fetches@[i]),
                ) is Table,
            forall|i: int|
                0 <= i < filters@.len() ==> w0.spec_storage(
                    spec_filter_comp(#[trigger] filters@[i]),
                ) is Table,
            spec_fetch_states_ok(w0, t as int, fetches@, fetch_states@),
            spec_filter_states_ok(w0, t as int, filters@, filter_states@),
            spec_arch_upto_post(w0, *world, fetches@, filters@, t as int, row as int, last, cur),
            out@.len() == old(out)@.len() + spec_arch_rows(
                w0,
                filters@,
                t as int,
                row as int,
                last,
                cur,
            ).len(),
            forall|j: int| 0 <= j < old(out)@.len() ==> out@[j] == old(out)@[j],
            forall|j: int|
                0 <= j < spec_arch_rows(w0, filters@, t as int, row as int, last, cur).len()
                    ==> {
                    let rows = spec_arch_rows(w0, filters@, t as int, row as int, last, cur);
                    &&& (#[trigger] out@[old(out)@.len() + j]).entity == w0.spec_entity_at(
                        t as int,
                        rows[j],
                    )
                    &&& out@[old(out)@.len() + j].items@ == spec_fetch_row(
                        w0,
                        fetches@,
                        t as int,
                        rows[j],
                        last,
                        cur,
                    )
                },
        decreases nrows - row,
    {
        let ghost w_pre = *world;
        proof {
            lemma_skeleton_wf(w0, w_pre);
            lemma_fetch_states_ok_skeleton(w0, w_pre, t as int, fetches@, fetch_states@);
            lemma_filter_states_ok_skeleton(w0, w_pre, t as int, filters@, filter_states@);
            lemma_row_state_same_upto(
                w0,
                w_pre,
                fetches@,
                filters@,
                t as int,
                row as int,
                row as int,
                last,
                cur,
            );
            assert(w_pre.archetypes@[t as int] == w0.archetypes@[t as int]);
        }
        let pass = row_passes_filters_table(
            world,
            &filter_states,
            t,
            row,
            last,
            cur,
            Ghost(filters@),
        );
        if pass {
            proof {
                assert(spec_row_passes(w0, filters@, t as int, row as int, last, cur));
            }
            let e = world.archetypes[t].entities[row];
            let items = fetch_row_table(world, &fetch_states, t, row, last, cur, Ghost(fetches@));
            proof {
                lemma_arch_upto_step_fetch(
                    w0,
                    w_pre,
                    *world,
                    fetches@,
                    filters@,
                    t as int,
                    row as int,
                    last,
                    cur,
                );
            }
            out.push(crate::dynamic_query::DynamicQueryItem { entity: e, items });
            proof {
                let rows1 = spec_arch_rows(w0, filters@, t as int, row + 1, last, cur);
                let rows0 = spec_arch_rows(w0, filters@, t as int, row as int, last, cur);
                assert(rows1 == rows0.push(row as int));
                assert(e == w0.spec_entity_at(t as int, row as int));
                assert(items@ == spec_fetch_row(w0, fetches@, t as int, row as int, last, cur));
                assert forall|j: int| 0 <= j < rows1.len() implies {
                    &&& (#[trigger] out@[old(out)@.len() + j]).entity == w0.spec_entity_at(
                        t as int,
                        rows1[j],
                    )
                    &&& out@[old(out)@.len() + j].items@ == spec_fetch_row(
                        w0,
                        fetches@,
                        t as int,
                        rows1[j],
                        last,
                        cur,
                    )
                } by {
                    if j < rows0.len() {
                        assert(rows1[j] == rows0[j]);
                    } else {
                        assert(rows1[j] == row as int);
                    }
                }
            }
        } else {
            proof {
                assert(!spec_row_passes(w0, filters@, t as int, row as int, last, cur));
                lemma_arch_upto_step_skip(
                    w0,
                    *world,
                    fetches@,
                    filters@,
                    t as int,
                    row as int,
                    last,
                    cur,
                );
                assert(spec_arch_rows(w0, filters@, t as int, row + 1, last, cur)
                    == spec_arch_rows(w0, filters@, t as int, row as int, last, cur));
            }
        }
        row = row + 1;
    }
    proof {
        lemma_skeleton_wf(w0, *world);
    }
}

/// Walk every table of the match list in order by contiguous row index:
/// the dense strategy, usable only when every touched field is
/// table-backed. Meets the same contract as the general walk.
pub(crate) fn iter_dense(
    world: &mut World,
    fetches: &Vec<FetchKind>,
    filters: &Vec<FilterKind>,
    ids: &Vec<usize>,
    last: u32,
    cur: u32,
) -> (r: Vec<crate::dynamic_query::DynamicQueryItem>)
    requires
        old(world).wf(),
        forall|j: int|
            0 <= j < ids@.len() ==> (#[trigger] ids@[j]) < old(world).archetypes@.len()
                && spec_query_matches(
                fetches@,
                filters@,
                old(world).archetypes@[ids@[j] as int],
            ),
        forall|j1: int, j2: int| 0 <= j1 < j2 < ids@.len() ==> ids@[j1] < ids@[j2],
        forall|i: int|
            0 <= i < fetches@.len() ==> old(world).spec_known(
                spec_fetch_comp(#[trigger] fetches@[i]),
            ),
        forall|i: int|
            0 <= i < filters@.len() ==> old(world).spec_known(
                spec_filter_comp(#[trigger] filters@[i]),
            ),
        forall|i: int|
            0 <= i < fetches@.len() ==> old(world).spec_storage(
                spec_fetch_comp(#[trigger] fetches@[i]),
            ) is Table,
        forall|i: int|
            0 <= i < filters@.len() ==> old(world).spec_storage(
                spec_filter_comp(#[trigger] filters@[i]),
            ) is Table,
    ensures
        final(world).wf(),
        spec_done_post(*old(world), *final(world), fetches@, filters@, ids@, last, cur),
        ({
            let pairs = spec_yield_pairs(*old(world), filters@, ids@, last, cur);
            &&& r@.len() == pairs.len()
            &&& forall|i: int|
                0 <= i < pairs.len() ==> {
                    &&& (#[trigger] r@[i]).entity == old(world).spec_entity_at(
                        pairs[i].0,
                        pairs[i].1,
                    )
                    &&& r@[i].items@ == spec_fetch_row(
                        *old(world),
                        fetches@,
                        pairs[i].0,
                        pairs[i].1,
                        last,
                        cur,
                    )
                }
        }),
{
    let ghost w0 = *old(world);
    let mut out: Vec<crate::dynamic_query::DynamicQueryItem> = Vec::new();
    let n = ids.len();
    let na = world.archetypes.len();
    let mut k: usize = 0;
    proof {
        assert(ids@.take(0) =~= Seq::<usize>::empty());
        assert(spec_yield_pairs(w0, filters@, ids@.take(0), last, cur) =~= Seq::<(
            int,
            int,
        )>::empty());
    }
    while k < n
        invariant
            k <= n,
            w0 == *old(world),
            w0.wf(),
            n == ids@.len(),
            w0.archetypes@.len() == na,
            forall|j: int|
                0 <= j < ids@.len() ==> (#[trigger] ids@[j]) < w0.archetypes@.len()
                    && spec_query_matches(fetches@, filters@, w0.archetypes@[ids@[j] as int]),
            forall|j1: int, j2: int| 0 <= j1 < j2 < ids@.len() ==> ids@[j1] < ids@[j2],
            forall|i: int|
                0 <= i < fetches@.len() ==> w0.spec_known(
                    spec_fetch_comp(#[trigger] fetches@[i]),
                ),
            forall|i: int|
                0 <= i < filters@.len() ==> w0.spec_known(
                    spec_filter_comp(#[trigger] filters@[i]),
                ),
            forall|i: int|
                0 <= i < fetches@.len() ==> w0.spec_storage(
                    spec_fetch_comp(#[trigger] fetches@[i]),
                ) is Table,
            forall|i: int|
                0 <= i < filters@.len() ==> w0.spec_storage(
                    spec_filter_comp(#[trigger] filters@[i]),
                ) is Table,
            spec_done_post(w0, *world, fetches@, filters@, ids@.take(k as int), last, cur),
            out@.len() == spec_yield_pairs(w0, filters@, ids@.take(k as int), last, cur).len(),
            forall|i: int|
                0 <= i < out@.len() ==> {
                    let pairs = spec_yield_pairs(w0, filters@, ids@.take(k as int), last, cur);
                    &&& (#[trigger] out@[i]).entity == w0.spec_entity_at(pairs[i].0, pairs[i].1)
                    &&& out@[i].items@ == spec_fetch_row(
                        w0,
                        fetches@,
                        pairs[i].0,
                        pairs[i].1,
                        last,
                        cur,
                    )
                },
        decreases n - k,
    {
        let ghost w_pre = *world;
        let ghost done = ids@.take(k as int);
        let t = ids[k];
        let ghost nrows = w0.archetypes@[t as int].entities@.len() as int;
        proof {
            lemma_skeleton_wf(w0, w_pre);
            assert(!done.contains(t)) by {
                if done.contains(t) {
                    let j = choose|j: int| 0 <= j < done.len() && done[j] == t;
                    assert(ids@[j] == t);
                    assert(ids@[j] < ids@[k as int]);
                }
            }
            assert(w_pre.archetypes@[t as int] == w0.archetypes@[t as int]);
        }
        run_table(world, fetches, filters, t, last, cur, &mut out);
        proof {
            lemma_done_step(w0, w_pre, *world, fetches@, filters@, done, t, last, cur);
            assert(done.push(t) =~= ids@.take(k + 1));
            lemma_arch_rows_same_done(
                w0,
                w_pre,
                fetches@,
                filters@,
                done,
                t as int,
                nrows,
                last,
                cur,
            );
            let rows = spec_arch_rows(w0, filters@, t as int, nrows, last, cur);
            lemma_arch_rows_facts(w0, filters@, t as int, nrows, last, cur);
            let pairs0 = spec_yield_pairs(w0, filters@, done, last, cur);
            let pairs1 = spec_yield_pairs(w0, filters@, ids@.take(k + 1), last, cur);
            assert(ids@.take(k + 1).last() == t);
            assert(ids@.take(k + 1).drop_last() =~= done);
            assert(pairs1 == pairs0 + rows.map_values(|row: int| (t as int, row)));
            assert forall|i: int| 0 <= i < pairs1.len() implies {
                &&& (#[trigger] out@[i]).entity == w0.spec_entity_at(pairs1[i].0, pairs1[i].1)
                &&& out@[i].items@ == spec_fetch_row(
                    w0,
                    fetches@,
                    pairs1[i].0,
                    pairs1[i].1,
                    last,
                    cur,
                )
            } by {
                if i < pairs0.len() {
                    assert(pairs1[i] == pairs0[i]);
                } else {
                    let j = i - pairs0.len();
                    assert(pairs1[i] == (t as int, rows[j]));
                    assert(0 <= rows[j] < nrows);
                    lemma_row_state_same_done(
                        w0,
                        w_pre,
                        fetches@,
                        filters@,
                        done,
                        t as int,
                        rows[j],
                        last,
                        cur,
                    );
                    assert(spec_arch_rows(
                        w_pre,
                        filters@,
                        t as int,
                        w_pre.archetypes@[t as int].entities@.len() as int,
                        last,
                        cur,
                    ) == rows);
                    assert(out@[pairs0.len() + j].entity == w_pre.spec_entity_at(
                        t as int,
                        rows[j],
                    ));
                    assert(out@[pairs0.len() + j].items@ == spec_fetch_row(
                        w_pre,
                        fetches@,
                        t as int,
                        rows[j],
                        last,
                        cur,
                    ));
                    assert(i == pairs0.len() + j);
                }
            }
        }
        k = k + 1;
    }
    proof {
        assert(ids@.take(n as int) =~= ids@);
        lemma_skeleton_wf(w0, *world);
    }
    out
}

/// Walk every archetype of the match list in order, appending the
/// surviving rows' results. The list must name matching archetypes in
/// strictly increasing creation order.
pub(crate) fn iter_general(
    world: &mut World,
    fetches: &Vec<FetchKind>,
    filters: &Vec<FilterKind>,
    ids: &Vec<usize>,
    last: u32,
    cur: u32,
) -> (r: Vec<crate::dynamic_query::DynamicQueryItem>)
    requires
        old(world).wf(),
        forall|j: int|
            0 <= j < ids@.len() ==> (#[trigger] ids@[j]) < old(world).archetypes@.len()
                && spec_query_matches(
                fetches@,
                filters@,
                old(world).archetypes@[ids@[j] as int],
            ),
        forall|j1: int, j2: int| 0 <= j1 < j2 < ids@.len() ==> ids@[j1] < ids@[j2],
        forall|i: int|
            0 <= i < fetches@.len() ==> old(world).spec_known(
                spec_fetch_comp(#[trigger] fetches@[i]),
            ),
        forall|i: int|
            0 <= i < filters@.len() ==> old(world).spec_known(
                spec_filter_comp(#[trigger] filters@[i]),
            ),
    ensures
        final(world).wf(),
        spec_done_post(*old(world), *final(world), fetches@, filters@, ids@, last, cur),
        ({
            let pairs = spec_yield_pairs(*old(world), filters@, ids@, last, cur);
            &&& r@.len() == pairs.len()
            &&& forall|i: int|
                0 <= i < pairs.len() ==> {
                    &&& (#[trigger] r@[i]).entity == old(world).spec_entity_at(
                        pairs[i].0,
                        pairs[i].1,
                    )
                    &&& r@[i].items@ == spec_fetch_row(
                        *old(world),
                        fetches@,
                        pairs[i].0,
                        pairs[i].1,
                        last,
                        cur,
                    )
                }
        }),
{
    let ghost w0 = *old(world);
    let mut out: Vec<crate::dynamic_query::DynamicQueryItem> = Vec::new();
    let n = ids.len();
    let na = world.archetypes.len();
    let mut k: usize = 0;
    proof {
        assert(ids@.take(0) =~= Seq::<usize>::empty());
        assert(spec_yield_pairs(w0, filters@, ids@.take(0), last, cur) =~= Seq::<(
            int,
            int,
        )>::empty());
    }
    while k < n
        invariant
            k <= n,
            w0 == *old(world),
            w0.wf(),
            n == ids@.len(),
            w0.archetypes@.len() == na,
            forall|j: int|
                0 <= j < ids@.len() ==> (#[trigger] ids@[j]) < w0.archetypes@.len()
                    && spec_query_matches(fetches@, filters@, w0.archetypes@[ids@[j] as int]),
            forall|j1: int, j2: int| 0 <= j1 < j2 < ids@.len() ==> ids@[j1] < ids@[j2],
            forall|i: int|
                0 <= i < fetches@.len() ==> w0.spec_known(
                    spec_fetch_comp(#[trigger] fetches@[i]),
                ),
            forall|i: int|
                0 <= i < filters@.len() ==> w0.spec_known(
                    spec_filter_comp(#[trigger] filters@[i]),
                ),
            spec_done_post(w0, *world, fetches@, filters@, ids@.take(k as int), last, cur),
            out@.len() == spec_yield_pairs(w0, filters@, ids@.take(k as int), last, cur).len(),
            forall|i: int|
                0 <= i < out@.len() ==> {
                    let pairs = spec_yield_pairs(w0, filters@, ids@.take(k as int), last, cur);
                    &&& (#[trigger] out@[i]).entity == w0.spec_entity_at(pairs[i].0, pairs[i].1)
                    &&& out@[i].items@ == spec_fetch_row(
                        w0,
                        fetches@,
                        pairs[i].0,
                        pairs[i].1,
                        last,
                        cur,
                    )
                },
        decreases n - k,
    {
        let ghost w_pre = *world;
        let ghost done = ids@.take(k as int);
        let a = ids[k];
        let ghost nrows = w0.archetypes@[a as int].entities@.len() as int;
        proof {
            lemma_skeleton_wf(w0, w_pre);
            assert(!done.contains(a)) by {
                if done.contains(a) {
                    let j = choose|j: int| 0 <= j < done.len() && done[j] == a;
                    assert(ids@[j] == a);
                    assert(ids@[j] < ids@[k as int]);
                }
            }
            assert(w_pre.archetypes@[a as int] == w0.archetypes@[a as int]);
        }
        run_archetype(world, fetches, filters, a, last, cur, &mut out);
        proof {
            lemma_done_step(w0, w_pre, *world, fetches@, filters@, done, a, last, cur);
            assert(done.push(a) =~= ids@.take(k + 1));
            lemma_arch_rows_same_done(w0, w_pre, fetches@, filters@, done, a as int, nrows, last, cur);
            let rows = spec_arch_rows(w0, filters@, a as int, nrows, last, cur);
            lemma_arch_rows_facts(w0, filters@, a as int, nrows, last, cur);
            let pairs0 = spec_yield_pairs(w0, filters@, done, last, cur);
            let pairs1 = spec_yield_pairs(w0, filters@, ids@.take(k + 1), last, cur);
            assert(ids@.take(k + 1).last() == a);
            assert(ids@.take(k + 1).drop_last() =~= done);
            assert(pairs1 == pairs0 + rows.map_values(|row: int| (a as int, row)));
            assert forall|i: int| 0 <= i < pairs1.len() implies {
                &&& (#[trigger] out@[i]).entity == w0.spec_entity_at(pairs1[i].0, pairs1[i].1)
                &&& out@[i].items@ == spec_fetch_row(
                    w0,
                    fetches@,
                    pairs1[i].0,
                    pairs1[i].1,
                    last,
                    cur,
                )
            } by {
                if i < pairs0.len() {
                    assert(pairs1[i] == pairs0[i]);
                } else {
                    let j = i - pairs0.len();
                    assert(pairs1[i] == (a as int, rows[j]));
                    assert(0 <= rows[j] < nrows);
                    lemma_row_state_same_done(
                        w0,
                        w_pre,
                        fetches@,
                        filters@,
                        done,
                        a as int,
                        rows[j],
                        last,
                        cur,
                    );
                    assert(spec_arch_rows(
                        w_pre,
                        filters@,
                        a as int,
                        w_pre.archetypes@[a as int].entities@.len() as int,
                        last,
                        cur,
                    ) == rows);
                    assert(out@[pairs0.len() + j].entity == w_pre.spec_entity_at(
                        a as int,
                        rows[j],
                    ));
                    assert(out@[pairs0.len() + j].items@ == spec_fetch_row(
                        w_pre,
                        fetches@,
                        a as int,
                        rows[j],
                        last,
                        cur,
                    ));
                    assert(i == pairs0.len() + j);
                }
            }
        }
        k = k + 1;
    }
    proof {
        assert(ids@.take(n as int) =~= ids@);
        lemma_skeleton_wf(w0, *world);
    }
    out
}

} // verus!
