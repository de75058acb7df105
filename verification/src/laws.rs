//! The engine's global guarantees, each stated and proved over the spec
//! functions that the public contracts use: aliasing rejection is sound
//! and complete, matching is complete, no position is yielded twice,
//! growing the store only adds results, and exclusive fetches are visible
//! to later change-tracking queries.

use vstd::prelude::*;

use crate::dynamic_query::{spec_build_error, spec_fetch_comp, spec_fetch_error_at,
    spec_fetch_reads, spec_fetch_writes, spec_filter_comp, spec_filter_error_at,
    spec_first_fetch_error, spec_first_filter_error, spec_matching_ids, spec_query_matches,
    spec_writes_comp, FetchKind, FilterKind};
use crate::query_iter::{spec_arch_rows, spec_fetch_row, spec_filter_passes, spec_iterate_post,
    spec_row_passes, spec_slot_written, spec_yield_pairs};
use crate::world::{spec_store_extends, ComponentId, World};

verus! {

/// Two access requests on the same field with incompatible modes: at least
/// one of them exclusive.
pub open spec fn spec_has_alias_conflict(fetches: Seq<FetchKind>) -> bool {
    exists|i: int, j: int|
        0 <= i < j < fetches.len() && spec_fetch_comp(#[trigger] fetches[i]) == spec_fetch_comp(
            #[trigger] fetches[j],
        ) && ((fetches[i]) is RefMut || (fetches[j]) is RefMut)
}

/// A change-tracking filter whose field is exclusively fetched: its read
/// dependency on the field's metadata conflicts with the write.
pub open spec fn spec_has_filter_conflict(
    fetches: Seq<FetchKind>,
    filters: Seq<FilterKind>,
) -> bool {
    exists|i: int|
        0 <= i < filters.len() && ((#[trigger] filters[i]) is Changed || (filters[i]) is Added)
            && spec_writes_comp(fetches, spec_filter_comp(filters[i]))
}

/// Every field named by a request is known to the registry.
pub open spec fn spec_all_known(w: World, fetches: Seq<FetchKind>, filters: Seq<FilterKind>) -> bool {
    &&& forall|i: int|
        0 <= i < fetches.len() ==> w.spec_known(spec_fetch_comp(#[trigger] fetches[i]))
    &&& forall|i: int|
        0 <= i < filters.len() ==> w.spec_known(spec_filter_comp(#[trigger] filters[i]))
}

proof fn lemma_first_fetch_error_none_iff(w: World, fetches: Seq<FetchKind>, n: int)
    requires
        0 <= n,
    ensures
        spec_first_fetch_error(w, fetches, n) is None <==> (forall|i: int|
            0 <= i < n ==> #[trigger] spec_fetch_error_at(w, fetches, i) is None),
    decreases n,
{
    if n > 0 {
        lemma_first_fetch_error_none_iff(w, fetches, n - 1);
    }
}

proof fn lemma_first_filter_error_none_iff(
    w: World,
    fetches: Seq<FetchKind>,
    filters: Seq<FilterKind>,
    n: int,
)
    requires
        0 <= n,
    ensures
        spec_first_filter_error(w, fetches, filters, n) is None <==> (forall|i: int|
            0 <= i < n ==> #[trigger] spec_filter_error_at(w, fetches, filters, i) is None),
    decreases n,
{
    if n > 0 {
        lemma_first_filter_error_none_iff(w, fetches, filters, n - 1);
    }
}

/// Soundness and completeness of aliasing rejection: construction succeeds
/// exactly when every named field is known, no two access requests on the
/// same field have incompatible modes, and no change-tracking filter reads
/// an exclusively fetched field.
pub proof fn lemma_aliasing_rejection(w: World, fetches: Seq<FetchKind>, filters: Seq<FilterKind>)
    ensures
        spec_build_error(w, fetches, filters) is None <==> (spec_all_known(w, fetches, filters)
            && !spec_has_alias_conflict(fetches) && !spec_has_filter_conflict(fetches, filters)),
{
    let nf = fetches.len() as int;
    let nl = filters.len() as int;
    lemma_first_fetch_error_none_iff(w, fetches, nf);
    lemma_first_filter_error_none_iff(w, fetches, filters, nl);
    if spec_build_error(w, fetches, filters) is None {
        assert(spec_all_known(w, fetches, filters)) by {
            assert forall|i: int| 0 <= i < fetches.len() implies w.spec_known(
                spec_fetch_comp(#[trigger] fetches[i]),
            ) by {
                assert(spec_fetch_error_at(w, fetches, i) is None);
            }
            assert forall|i: int| 0 <= i < filters.len() implies w.spec_known(
                spec_filter_comp(#[trigger] filters[i]),
            ) by {
                assert(spec_filter_error_at(w, fetches, filters, i) is None);
            }
        }
        assert(!spec_has_alias_conflict(fetches)) by {
            if spec_has_alias_conflict(fetches) {
                let (i, j) = choose|i: int, j: int|
                    0 <= i < j < fetches.len() && spec_fetch_comp(#[trigger] fetches[i])
                        == spec_fetch_comp(#[trigger] fetches[j]) && ((fetches[i]) is RefMut || (
                    fetches[j]) is RefMut);
                let c = spec_fetch_comp(fetches[j]);
                assert(spec_fetch_error_at(w, fetches, j) is None);
                if (fetches[j]) is RefMut {
                    assert(spec_fetch_reads(fetches, j).contains(c.id as int)) by {
                        assert(spec_fetch_comp(fetches[i]).id == c.id);
                    }
                    assert(false);
                } else {
                    assert((fetches[i]) is RefMut);
                    assert(spec_fetch_writes(fetches, j).contains(c.id as int)) by {
                        assert((fetches[i]) is RefMut && spec_fetch_comp(fetches[i]).id == c.id);
                    }
                    assert(false);
                }
            }
        }
        assert(!spec_has_filter_conflict(fetches, filters)) by {
            if spec_has_filter_conflict(fetches, filters) {
                let i = choose|i: int|
                    0 <= i < filters.len() && ((#[trigger] filters[i]) is Changed || (
                    filters[i]) is Added) && spec_writes_comp(fetches, spec_filter_comp(filters[i]));
                let c = spec_filter_comp(filters[i]);
                assert(spec_filter_error_at(w, fetches, filters, i) is None);
                crate::dynamic_query::lemma_fetch_writes_comp(fetches, c);
                assert(false);
            }
        }
    }
    if spec_all_known(w, fetches, filters) && !spec_has_alias_conflict(fetches)
        && !spec_has_filter_conflict(fetches, filters) {
        assert forall|i: int| 0 <= i < nf implies #[trigger] spec_fetch_error_at(
            w,
            fetches,
            i,
        ) is None by {
            let c = spec_fetch_comp(fetches[i]);
            assert(w.spec_known(c));
            if (fetches[i]) is Ref && spec_fetch_writes(fetches, i).contains(c.id as int) {
                let j = choose|j: int|
                    0 <= j < i && (#[trigger] fetches[j]) is RefMut && spec_fetch_comp(
                        fetches[j],
                    ).id == c.id;
                assert(spec_fetch_comp(fetches[j]) == c);
                assert(spec_has_alias_conflict(fetches));
            }
            if (fetches[i]) is RefMut && spec_fetch_reads(fetches, i).contains(c.id as int) {
                let j = choose|j: int|
                    0 <= j < i && spec_fetch_comp(#[trigger] fetches[j]).id == c.id;
                assert(spec_fetch_comp(fetches[j]) == c);
                assert(spec_has_alias_conflict(fetches));
            }
        }
        assert forall|i: int| 0 <= i < nl implies #[trigger] spec_filter_error_at(
            w,
            fetches,
            filters,
            i,
        ) is None by {
            let c = spec_filter_comp(filters[i]);
            assert(w.spec_known(c));
            if ((filters[i]) is Changed || (filters[i]) is Added) && spec_fetch_writes(
                fetches,
                nf,
            ).contains(c.id as int) {
                crate::dynamic_query::lemma_fetch_writes_comp(fetches, c);
                assert(spec_has_filter_conflict(fetches, filters));
            }
        }
    }
}

/// Which positions one pass yields: membership in the yielded sequence.
proof fn lemma_yield_pairs_contains(
    w: World,
    filters: Seq<FilterKind>,
    ids: Seq<usize>,
    last: u32,
    cur: u32,
    a: int,
    row: int,
)
    ensures
        spec_yield_pairs(w, filters, ids, last, cur).contains((a, row)) <==> (ids.contains(
            a as usize,
        ) && 0 <= a && a == a as usize && spec_arch_rows(
            w,
            filters,
            a,
            w.archetypes@[a].entities@.len() as int,
            last,
            cur,
        ).contains(row)),
    decreases ids.len(),
{
    let pairs = spec_yield_pairs(w, filters, ids, last, cur);
    if ids.len() == 0 {
        if pairs.contains((a, row)) {
            let i = choose|i: int| 0 <= i < pairs.len() && pairs[i] == (a, row);
        }
        if ids.contains(a as usize) {
            let j = choose|j: int| 0 <= j < ids.len() && ids[j] == a as usize;
        }
    } else {
        let al = ids.last() as int;
        let pre = spec_yield_pairs(w, filters, ids.drop_last(), last, cur);
        let rows = spec_arch_rows(
            w,
            filters,
            al,
            w.archetypes@[al].entities@.len() as int,
            last,
            cur,
        );
        let tail = rows.map_values(|r: int| (al, r));
        lemma_yield_pairs_contains(w, filters, ids.drop_last(), last, cur, a, row);
        assert(pairs == pre + tail);
        if pairs.contains((a, row)) {
            let i = choose|i: int| 0 <= i < pairs.len() && pairs[i] == (a, row);
            if i < pre.len() {
                assert(pre[i] == (a, row));
                assert(pre.contains((a, row)));
                assert(ids.drop_last().contains(a as usize));
                let j = choose|j: int|
                    0 <= j < ids.drop_last().len() && ids.drop_last()[j] == a as usize;
                assert(ids[j] == a as usize);
                assert(ids.contains(a as usize));
            } else {
                let j = i - pre.len();
                assert(tail[j] == (a, row));
                assert(tail[j] == (al, rows[j]));
                assert(a == al && row == rows[j]);
                assert(rows.contains(row));
                assert(ids[ids.len() - 1] == a as usize);
                assert(ids.contains(a as usize));
            }
        }
        if ids.contains(a as usize) && 0 <= a && a == a as usize && spec_arch_rows(
            w,
            filters,
            a,
            w.archetypes@[a].entities@.len() as int,
            last,
            cur,
        ).contains(row) {
            if a == al {
                let j = choose|j: int|
                    0 <= j < rows.len() && rows[j] == row;
                assert(tail[j] == (a, row));
                assert(pairs[pre.len() + j] == (a, row));
                assert(pairs.contains((a, row)));
            } else {
                let j = choose|j: int| 0 <= j < ids.len() && ids[j] == a as usize;
                assert(j < ids.len() - 1) by {
                    if j == ids.len() - 1 {
                        assert(ids[j] == ids.last());
                    }
                }
                assert(ids.drop_last()[j] == a as usize);
                assert(ids.drop_last().contains(a as usize));
                assert(pre.contains((a, row)));
                let i = choose|i: int| 0 <= i < pre.len() && pre[i] == (a, row);
                assert(pairs[i] == (a, row));
                assert(pairs.contains((a, row)));
            }
        }
    }
}

/// Completeness of matching: a position is yielded by one pass exactly
/// when its archetype structurally matches the query and its row passes
/// every change-tracking filter under the pass's tick window.
pub proof fn lemma_matching_complete(
    w: World,
    fetches: Seq<FetchKind>,
    filters: Seq<FilterKind>,
    last: u32,
    cur: u32,
    a: int,
    row: int,
)
    requires
        w.wf(),
        w.archetypes@.len() <= usize::MAX,
        0 <= a < w.archetypes@.len(),
        0 <= row < w.archetypes@[a].entities@.len(),
    ensures
        spec_yield_pairs(
            w,
            filters,
            spec_matching_ids(w, fetches, filters, w.archetypes@.len() as int),
            last,
            cur,
        ).contains((a, row)) <==> (spec_query_matches(fetches, filters, w.archetypes@[a])
            && spec_row_passes(w, filters, a, row, last, cur)),
{
    let ids = spec_matching_ids(w, fetches, filters, w.archetypes@.len() as int);
    lemma_yield_pairs_contains(w, filters, ids, last, cur, a, row);
    crate::dynamic_query::lemma_matching_ids_contains(
        w,
        fetches,
        filters,
        w.archetypes@.len() as int,
        a as usize,
    );
    crate::query_iter::lemma_arch_rows_facts(
        w,
        filters,
        a,
        w.archetypes@[a].entities@.len() as int,
        last,
        cur,
    );
}

/// The yielded positions are strictly increasing in archetype-then-row
/// order, and all valid.
proof fn lemma_yield_pairs_ordered(
    w: World,
    filters: Seq<FilterKind>,
    ids: Seq<usize>,
    last: u32,
    cur: u32,
)
    requires
        forall|j1: int, j2: int| 0 <= j1 < j2 < ids.len() ==> ids[j1] < ids[j2],
        forall|j: int| 0 <= j < ids.len() ==> (#[trigger] ids[j]) < w.archetypes@.len(),
    ensures
        ({
            let pairs = spec_yield_pairs(w, filters, ids, last, cur);
            &&& forall|i: int|
                0 <= i < pairs.len() ==> {
                    &&& 0 <= (#[trigger] pairs[i]).0 < w.archetypes@.len()
                    &&& 0 <= pairs[i].1 < w.archetypes@[pairs[i].0].entities@.len()
                    &&& (ids.len() > 0 ==> pairs[i].0 <= ids.last() as int)
                }
            &&& forall|i: int, j: int|
                0 <= i < j < pairs.len() ==> ((#[trigger] pairs[i]).0 < (#[trigger] pairs[j]).0 || (
                pairs[i].0 == pairs[j].0 && pairs[i].1 < pairs[j].1))
        }),
    decreases ids.len(),
{
    let pairs = spec_yield_pairs(w, filters, ids, last, cur);
    if ids.len() > 0 {
        let al = ids.last() as int;
        let pre = spec_yield_pairs(w, filters, ids.drop_last(), last, cur);
        let rows = spec_arch_rows(
            w,
            filters,
            al,
            w.archetypes@[al].entities@.len() as int,
            last,
            cur,
        );
        let tail = rows.map_values(|r: int| (al, r));
        lemma_yield_pairs_ordered(w, filters, ids.drop_last(), last, cur);
        crate::query_iter::lemma_arch_rows_facts(
            w,
            filters,
            al,
            w.archetypes@[al].entities@.len() as int,
            last,
            cur,
        );
        assert(pairs == pre + tail);
        assert(ids.contains(ids.last()));
        assert forall|i: int| 0 <= i < pairs.len() implies {
            &&& 0 <= (#[trigger] pairs[i]).0 < w.archetypes@.len()
            &&& 0 <= pairs[i].1 < w.archetypes@[pairs[i].0].entities@.len()
            &&& pairs[i].0 <= al
        } by {
            if i < pre.len() {
                assert(pairs[i] == pre[i]);
                if ids.drop_last().len() > 0 {
                    assert(pre[i].0 <= ids.drop_last().last() as int);
                    assert(ids.drop_last().last() == ids[ids.len() - 2]);
                    assert(ids[ids.len() - 2] < ids.last());
                }
            } else {
                let j = i - pre.len();
                assert(pairs[i] == tail[j]);
                assert(tail[j] == (al, rows[j]));
                assert(0 <= rows[j] < w.archetypes@[al].entities@.len());
            }
        }
        assert forall|i: int, j: int| 0 <= i < j < pairs.len() implies ((#[trigger] pairs[i]).0 < (
        #[trigger] pairs[j]).0 || (pairs[i].0 == pairs[j].0 && pairs[i].1 < pairs[j].1)) by {
            if j < pre.len() {
                assert(pairs[i] == pre[i] && pairs[j] == pre[j]);
            } else if i >= pre.len() {
                let i2 = i - pre.len();
                let j2 = j - pre.len();
                assert(pairs[i] == tail[i2] && pairs[j] == tail[j2]);
                assert(rows[i2] < rows[j2]);
            } else {
                assert(pairs[i] == pre[i]);
                let j2 = j - pre.len();
                assert(pairs[j] == tail[j2]);
                if ids.drop_last().len() > 0 {
                    assert(pre[i].0 <= ids.drop_last().last() as int);
                    assert(ids.drop_last().last() == ids[ids.len() - 2]);
                    assert(ids[ids.len() - 2] < ids.last());
                }
            }
        }
    }
}

/// No duplicate yields: within one pass, every yielded position is
/// distinct, and so is every yielded entity.
pub proof fn lemma_no_duplicate_yields(
    w: World,
    fetches: Seq<FetchKind>,
    filters: Seq<FilterKind>,
    last: u32,
    cur: u32,
)
    requires
        w.wf(),
        w.archetypes@.len() <= usize::MAX,
    ensures
        ({
            let pairs = spec_yield_pairs(
                w,
                filters,
                spec_matching_ids(w, fetches, filters, w.archetypes@.len() as int),
                last,
                cur,
            );
            forall|i: int, j: int|
                0 <= i < j < pairs.len() ==> #[trigger] pairs[i] != #[trigger] pairs[j]
                    && w.spec_entity_at(pairs[i].0, pairs[i].1) != w.spec_entity_at(
                    pairs[j].0,
                    pairs[j].1,
                )
        }),
{
    let ids = spec_matching_ids(w, fetches, filters, w.archetypes@.len() as int);
    crate::dynamic_query::lemma_matching_ids_sorted(
        w,
        fetches,
        filters,
        w.archetypes@.len() as int,
    );
    assert forall|j: int| 0 <= j < ids.len() implies (#[trigger] ids[j]) < w.archetypes@.len() by {
        assert(ids[j] < w.archetypes@.len() as int);
    }
    lemma_yield_pairs_ordered(w, filters, ids, last, cur);
    let pairs = spec_yield_pairs(w, filters, ids, last, cur);
    assert forall|i: int, j: int| 0 <= i < j < pairs.len() implies #[trigger] pairs[i]
        != #[trigger] pairs[j] && w.spec_entity_at(pairs[i].0, pairs[i].1) != w.spec_entity_at(
        pairs[j].0,
        pairs[j].1,
    ) by {
        assert(w.spec_pos_valid(pairs[i].0, pairs[i].1));
        assert(w.spec_pos_valid(pairs[j].0, pairs[j].1));
    }
}

/// Incrementality: growing the store never disturbs the old results. An
/// old position is yielded after the growth exactly as it was before,
/// with the same entity and the same fetched handles; every position
/// yielded only after the growth is a new row or a new archetype.
pub proof fn lemma_incrementality(
    w1: World,
    w2: World,
    fetches: Seq<FetchKind>,
    filters: Seq<FilterKind>,
    last: u32,
    cur: u32,
)
    requires
        w1.wf(),
        w2.wf(),
        spec_store_extends(w1, w2),
        w2.archetypes@.len() <= usize::MAX,
    ensures
        ({
            let p1 = spec_yield_pairs(
                w1,
                filters,
                spec_matching_ids(w1, fetches, filters, w1.archetypes@.len() as int),
                last,
                cur,
            );
            let p2 = spec_yield_pairs(
                w2,
                filters,
                spec_matching_ids(w2, fetches, filters, w2.archetypes@.len() as int),
                last,
                cur,
            );
            &&& forall|a: int, row: int|
                w1.spec_pos_valid(a, row) ==> (#[trigger] p1.contains((a, row)) <==> p2.contains(
                    (a, row),
                ))
            &&& forall|a: int, row: int|
                w1.spec_pos_valid(a, row) && p1.contains((a, row)) ==> {
                    &&& #[trigger] w2.spec_entity_at(a, row) == w1.spec_entity_at(a, row)
                    &&& spec_fetch_row(w2, fetches, a, row, last, cur) == spec_fetch_row(
                        w1,
                        fetches,
                        a,
                        row,
                        last,
                        cur,
                    )
                }
            &&& forall|a: int, row: int|
                #[trigger] p2.contains((a, row)) && !w1.spec_pos_valid(a, row)
                    ==> spec_query_matches(fetches, filters, w2.archetypes@[a])
                    && spec_row_passes(w2, filters, a, row, last, cur)
        }),
{
    let p1 = spec_yield_pairs(
        w1,
        filters,
        spec_matching_ids(w1, fetches, filters, w1.archetypes@.len() as int),
        last,
        cur,
    );
    let p2 = spec_yield_pairs(
        w2,
        filters,
        spec_matching_ids(w2, fetches, filters, w2.archetypes@.len() as int),
        last,
        cur,
    );
    assert forall|a: int, row: int| w1.spec_pos_valid(a, row) implies {
        &&& (#[trigger] p1.contains((a, row)) <==> p2.contains((a, row)))
        &&& (p1.contains((a, row)) ==> w2.spec_entity_at(a, row) == w1.spec_entity_at(a, row)
            && spec_fetch_row(w2, fetches, a, row, last, cur) == spec_fetch_row(
            w1,
            fetches,
            a,
            row,
            last,
            cur,
        ))
    } by {
        lemma_matching_complete(w1, fetches, filters, last, cur, a, row);
        assert(w2.spec_pos_valid(a, row));
        lemma_matching_complete(w2, fetches, filters, last, cur, a, row);
        crate::dynamic_query::lemma_matches_same_components(
            fetches,
            filters,
            w1.archetypes@[a],
            w2.archetypes@[a],
        );
        if spec_query_matches(fetches, filters, w1.archetypes@[a]) {
            lemma_row_state_same_extends(w1, w2, fetches, filters, a, row, last, cur);
        }
    }
    assert forall|a: int, row: int|
        #[trigger] p2.contains((a, row)) && !w1.spec_pos_valid(a, row)
            implies spec_query_matches(fetches, filters, w2.archetypes@[a]) && spec_row_passes(
        w2,
        filters,
        a,
        row,
        last,
        cur,
    ) by {
        lemma_yield_pairs_contains(
            w2,
            filters,
            spec_matching_ids(w2, fetches, filters, w2.archetypes@.len() as int),
            last,
            cur,
            a,
            row,
        );
        crate::dynamic_query::lemma_matching_ids_contains(
            w2,
            fetches,
            filters,
            w2.archetypes@.len() as int,
            a as usize,
        );
        crate::query_iter::lemma_arch_rows_facts(
            w2,
            filters,
            a,
            w2.archetypes@[a].entities@.len() as int,
            last,
            cur,
        );
    }
}

/// Filter verdicts and fetched handles of an old position agree between a
/// store and its extension.
proof fn lemma_row_state_same_extends(
    w1: World,
    w2: World,
    fetches: Seq<FetchKind>,
    filters: Seq<FilterKind>,
    a: int,
    row: int,
    last: u32,
    cur: u32,
)
    requires
        w1.wf(),
        w2.wf(),
        spec_store_extends(w1, w2),
        w1.spec_pos_valid(a, row),
        spec_query_matches(fetches, filters, w1.archetypes@[a]),
    ensures
        spec_row_passes(w2, filters, a, row, last, cur) == spec_row_passes(
            w1,
            filters,
            a,
            row,
            last,
            cur,
        ),
        spec_fetch_row(w2, fetches, a, row, last, cur) == spec_fetch_row(
            w1,
            fetches,
            a,
            row,
            last,
            cur,
        ),
        w2.spec_entity_at(a, row) == w1.spec_entity_at(a, row),
{
    assert forall|i: int| 0 <= i < filters.len() implies spec_filter_passes(
        w2,
        #[trigger] filters[i],
        a,
        row,
        last,
        cur,
    ) == spec_filter_passes(w1, filters[i], a, row, last, cur) by {
        assert(crate::dynamic_query::spec_filter_matches(filters[i], w1.archetypes@[a]));
        match filters[i] {
            FilterKind::Changed(c) => {
                assert(w1.archetypes@[a].spec_has(c));
                assert(w2.spec_slot_value(a, row, c) == w1.spec_slot_value(a, row, c));
                assert(w2.spec_slot_ticks(a, row, c) == w1.spec_slot_ticks(a, row, c));
            },
            FilterKind::Added(c) => {
                assert(w1.archetypes@[a].spec_has(c));
                assert(w2.spec_slot_value(a, row, c) == w1.spec_slot_value(a, row, c));
                assert(w2.spec_slot_ticks(a, row, c) == w1.spec_slot_ticks(a, row, c));
            },
            _ => {},
        }
    }
    assert(spec_row_passes(w2, filters, a, row, last, cur) == spec_row_passes(
        w1,
        filters,
        a,
        row,
        last,
        cur,
    )) by {
        if spec_row_passes(w1, filters, a, row, last, cur) {
            assert forall|i: int| 0 <= i < filters.len() implies spec_filter_passes(
                w2,
                #[trigger] filters[i],
                a,
                row,
                last,
                cur,
            ) by {
                assert(spec_filter_passes(w1, filters[i], a, row, last, cur));
            }
        }
        if spec_row_passes(w2, filters, a, row, last, cur) {
            assert forall|i: int| 0 <= i < filters.len() implies spec_filter_passes(
                w1,
                #[trigger] filters[i],
                a,
                row,
                last,
                cur,
            ) by {
                assert(spec_filter_passes(w2, filters[i], a, row, last, cur));
            }
        }
    }
    assert(spec_fetch_row(w2, fetches, a, row, last, cur) =~= spec_fetch_row(
        w1,
        fetches,
        a,
        row,
        last,
        cur,
    )) by {
        assert forall|i: int| 0 <= i < fetches.len() implies crate::query_iter::spec_fetch_one(
            w2,
            a,
            row,
            #[trigger] fetches[i],
            last,
            cur,
        ) == crate::query_iter::spec_fetch_one(w1, a, row, fetches[i], last, cur) by {
            assert(crate::dynamic_query::spec_fetch_matches(fetches[i], w1.archetypes@[a]));
            let c = spec_fetch_comp(fetches[i]);
            assert(w2.spec_slot_value(a, row, c) == w1.spec_slot_value(a, row, c));
        }
    }
}

/// Write visibility: after a pass whose query exclusively fetches `c`
/// yields the row, the slot's changed tick is the pass's current tick —
/// whether or not the handle was used — and any later window that
/// contains that tick sees the row as changed.
pub proof fn lemma_write_visibility(
    w0: World,
    w1: World,
    fetches: Seq<FetchKind>,
    filters: Seq<FilterKind>,
    last: u32,
    cur: u32,
    a: int,
    row: int,
    c: ComponentId,
    last2: u32,
    cur2: u32,
)
    requires
        w0.wf(),
        spec_iterate_post(w0, w1, fetches, filters, last, cur),
        spec_slot_written(w0, fetches, filters, a, row, c, last, cur),
        w0.archetypes@[a].spec_has(c),
        crate::tick::spec_tick_newer_than(cur, last2, cur2),
    ensures
        w1.wf(),
        w1.spec_slot_ticks(a, row, c).changed == cur,
        spec_filter_passes(w1, FilterKind::Changed(c), a, row, last2, cur2),
{
    crate::query_iter::lemma_skeleton_wf(w0, w1);
    crate::query_iter::lemma_slot_layout(w0, w1, a, row, c);
    if w0.spec_storage(c) is Table {
        let ci = crate::world::spec_the_col(w0.tables@[a].columns@, c);
        assert(w0.arch_components_wf(a));
        assert(w0.arch_table_wf(a));
        assert(w1.tables@[a].columns@[ci].ticks@[row].changed == cur) by {
            assert(w0.tables@[a].columns@[ci].component_id == c);
        }
    } else {
        let k = crate::world::spec_the_entry(
            w0.sparse_sets@[c.id as int].entries@,
            w0.spec_entity_at(a, row),
        );
        assert(w1.sparse_sets@[c.id as int].entries@[k].ticks.changed == cur) by {
            assert(w0.sparse_sets@[c.id as int].component_id.id == c.id);
            assert(w0.sparse_sets@[c.id as int].component_id == c);
            assert(w0.sparse_sets@[c.id as int].entries@[k].entity == w0.spec_entity_at(a, row));
        }
    }
}

} // verus!
