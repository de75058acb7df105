//! Dynamic queries: field accesses and filters chosen at run time, checked
//! for aliasing at construction, matched incrementally against the store's
//! compositions, and iterated with change-tracking semantics.

use vstd::prelude::*;

use crate::access::FilteredAccess;
use crate::bits::{bit_set_bits, bit_set_contains, bit_set_grow, bit_set_new, bit_set_put};
use crate::query_iter::{spec_fetch_row, spec_iterate_post, spec_yield_pairs};
use crate::world::{Archetype, ComponentId, StorageType, World};

verus! {

/// One requested field access: shared or exclusive.
#[derive(Clone, Copy, Debug, PartialEq, Eq, Structural)]
pub enum FetchKind {
    Ref(ComponentId),
    RefMut(ComponentId),
}

/// One requested filter: presence, absence, or change tracking.
#[derive(Clone, Copy, Debug, PartialEq, Eq, Structural)]
pub enum FilterKind {
    With(ComponentId),
    Without(ComponentId),
    Changed(ComponentId),
    Added(ComponentId),
}

/// One fetched field handle: the slot's value, and for exclusive access the
/// tick window under which the write was recorded.
#[derive(Clone, Copy, Debug, PartialEq, Eq, Structural)]
pub enum FetchResult {
    Ref { value: u64 },
    RefMut { value: u64, last_change_tick: u32, change_tick: u32 },
}

/// One yielded result: the entity and one fetched handle per access
/// request, in request order.
pub struct DynamicQueryItem {
    pub entity: crate::world::Entity,
    pub items: Vec<FetchResult>,
}

/// Why a query could not be built.
#[derive(Clone, Copy, Debug, PartialEq, Eq, Structural)]
pub enum QueryError {
    /// Two requests on this field have incompatible modes.
    AliasConflict { component: ComponentId },
    /// The field registry does not know this id.
    UnknownComponent { component: ComponentId },
}

pub open spec fn spec_fetch_comp(k: FetchKind) -> ComponentId {
    match k {
        FetchKind::Ref(c) => c,
        FetchKind::RefMut(c) => c,
    }
}

pub open spec fn spec_filter_comp(k: FilterKind) -> ComponentId {
    match k {
        FilterKind::With(c) => c,
        FilterKind::Without(c) => c,
        FilterKind::Changed(c) => c,
        FilterKind::Added(c) => c,
    }
}

/// Ids read (shared or exclusive) by the first `n` access requests.
pub open spec fn spec_fetch_reads(fetches: Seq<FetchKind>, n: int) -> Set<int> {
    Set::new(
        |b: int|
            exists|j: int| 0 <= j < n && spec_fetch_comp(#[trigger] fetches[j]).id == b,
    )
}

/// Ids written by the first `n` access requests.
pub open spec fn spec_fetch_writes(fetches: Seq<FetchKind>, n: int) -> Set<int> {
    Set::new(
        |b: int|
            exists|j: int|
                0 <= j < n && (#[trigger] fetches[j]) is RefMut && spec_fetch_comp(fetches[j]).id
                    == b,
    )
}

/// Is `c` written by any access request?
pub open spec fn spec_writes_comp(fetches: Seq<FetchKind>, c: ComponentId) -> bool {
    exists|j: int| 0 <= j < fetches.len() && #[trigger] fetches[j] == FetchKind::RefMut(c)
}

/// The failure the access request at position `i` provokes, if any: an
/// unknown field id, or an aliasing conflict with an earlier request.
pub open spec fn spec_fetch_error_at(w: World, fetches: Seq<FetchKind>, i: int) -> Option<
    QueryError,
> {
    let c = spec_fetch_comp(fetches[i]);
    if !w.spec_known(c) {
        Some(QueryError::UnknownComponent { component: c })
    } else if fetches[i] is Ref && spec_fetch_writes(fetches, i).contains(c.id as int) {
        Some(QueryError::AliasConflict { component: c })
    } else if fetches[i] is RefMut && spec_fetch_reads(fetches, i).contains(c.id as int) {
        Some(QueryError::AliasConflict { component: c })
    } else {
        None
    }
}

/// The first failure among the first `n` access requests.
pub open spec fn spec_first_fetch_error(w: World, fetches: Seq<FetchKind>, n: int) -> Option<
    QueryError,
>
    decreases n,
{
    if n <= 0 {
        None
    } else if spec_first_fetch_error(w, fetches, n - 1) is Some {
        spec_first_fetch_error(w, fetches, n - 1)
    } else {
        spec_fetch_error_at(w, fetches, n - 1)
    }
}

/// The failure the filter request at position `i` provokes, if any. A
/// change-tracking filter takes a read dependency on its field's metadata,
/// so it conflicts with an exclusive access on the same field.
pub open spec fn spec_filter_error_at(
    w: World,
    fetches: Seq<FetchKind>,
    filters: Seq<FilterKind>,
    i: int,
) -> Option<QueryError> {
    let c = spec_filter_comp(filters[i]);
    if !w.spec_known(c) {
        Some(QueryError::UnknownComponent { component: c })
    } else if (filters[i] is Changed || filters[i] is Added) && spec_fetch_writes(
        fetches,
        fetches.len() as int,
    ).contains(c.id as int) {
        Some(QueryError::AliasConflict { component: c })
    } else {
        None
    }
}

/// The first failure among the first `n` filter requests.
pub open spec fn spec_first_filter_error(
    w: World,
    fetches: Seq<FetchKind>,
    filters: Seq<FilterKind>,
    n: int,
) -> Option<QueryError>
    decreases n,
{
    if n <= 0 {
        None
    } else if spec_first_filter_error(w, fetches, filters, n - 1) is Some {
        spec_first_filter_error(w, fetches, filters, n - 1)
    } else {
        spec_filter_error_at(w, fetches, filters, n - 1)
    }
}

/// The first failure of query construction: access requests are applied in
/// order, then filter requests in order.
pub open spec fn spec_build_error(
    w: World,
    fetches: Seq<FetchKind>,
    filters: Seq<FilterKind>,
) -> Option<QueryError> {
    if spec_first_fetch_error(w, fetches, fetches.len() as int) is Some {
        spec_first_fetch_error(w, fetches, fetches.len() as int)
    } else {
        spec_first_filter_error(w, fetches, filters, filters.len() as int)
    }
}

/// Once a prefix fails, every longer prefix reports the same failure.
pub proof fn lemma_first_fetch_error_stable(w: World, fetches: Seq<FetchKind>, n1: int, n2: int)
    requires
        0 <= n1 <= n2,
        spec_first_fetch_error(w, fetches, n1) is Some,
    ensures
        spec_first_fetch_error(w, fetches, n2) == spec_first_fetch_error(w, fetches, n1),
    decreases n2 - n1,
{
    if n1 < n2 {
        lemma_first_fetch_error_stable(w, fetches, n1, n2 - 1);
    }
}

/// Once a filter prefix fails, every longer prefix reports the same failure.
pub proof fn lemma_first_filter_error_stable(
    w: World,
    fetches: Seq<FetchKind>,
    filters: Seq<FilterKind>,
    n1: int,
    n2: int,
)
    requires
        0 <= n1 <= n2,
        spec_first_filter_error(w, fetches, filters, n1) is Some,
    ensures
        spec_first_filter_error(w, fetches, filters, n2) == spec_first_filter_error(
            w,
            fetches,
            filters,
            n1,
        ),
    decreases n2 - n1,
{
    if n1 < n2 {
        lemma_first_filter_error_stable(w, fetches, filters, n1, n2 - 1);
    }
}

/// Does an access request match a composition? Both modes require presence.
pub open spec fn spec_fetch_matches(k: FetchKind, arch: Archetype) -> bool {
    arch.spec_has(spec_fetch_comp(k))
}

/// Does a filter request match a composition? Absence filters require the
/// field to be missing; all others require it to be present.
pub open spec fn spec_filter_matches(k: FilterKind, arch: Archetype) -> bool {
    match k {
        FilterKind::Without(c) => !arch.spec_has(c),
        _ => arch.spec_has(spec_filter_comp(k)),
    }
}

/// Structural match of a whole query against one composition.
pub open spec fn spec_query_matches(
    fetches: Seq<FetchKind>,
    filters: Seq<FilterKind>,
    arch: Archetype,
) -> bool {
    &&& forall|i: int|
        0 <= i < fetches.len() ==> spec_fetch_matches(#[trigger] fetches[i], arch)
    &&& forall|i: int|
        0 <= i < filters.len() ==> spec_filter_matches(#[trigger] filters[i], arch)
}

/// The indices of the matching archetypes among the first `n`, in creation
/// order.
pub open spec fn spec_matching_ids(
    w: World,
    fetches: Seq<FetchKind>,
    filters: Seq<FilterKind>,
    n: int,
) -> Seq<usize>
    decreases n,
{
    if n <= 0 {
        Seq::empty()
    } else if spec_query_matches(fetches, filters, w.archetypes@[n - 1]) {
        spec_matching_ids(w, fetches, filters, n - 1).push((n - 1) as usize)
    } else {
        spec_matching_ids(w, fetches, filters, n - 1)
    }
}

/// Membership in the match list is exactly a structural match.
pub proof fn lemma_matching_ids_contains(
    w: World,
    fetches: Seq<FetchKind>,
    filters: Seq<FilterKind>,
    n: int,
    t: usize,
)
    requires
        0 <= n <= usize::MAX,
    ensures
        spec_matching_ids(w, fetches, filters, n).contains(t) <==> (t < n && spec_query_matches(
            fetches,
            filters,
            w.archetypes@[t as int],
        )),
    decreases n,
{
    let ids = spec_matching_ids(w, fetches, filters, n);
    if n > 0 {
        lemma_matching_ids_contains(w, fetches, filters, n - 1, t);
        let pre = spec_matching_ids(w, fetches, filters, n - 1);
        if spec_query_matches(fetches, filters, w.archetypes@[n - 1]) {
            assert(ids == pre.push((n - 1) as usize));
            if t < n && spec_query_matches(fetches, filters, w.archetypes@[t as int]) {
                if t == n - 1 {
                    assert(ids[ids.len() - 1] == t);
                } else {
                    let j = choose|j: int| 0 <= j < pre.len() && pre[j] == t;
                    assert(ids[j] == t);
                }
            }
            if ids.contains(t) {
                let j = choose|j: int| 0 <= j < ids.len() && ids[j] == t;
                if j < pre.len() {
                    assert(pre[j] == t);
                }
            }
        } else {
            if ids.contains(t) {
                let j = choose|j: int| 0 <= j < ids.len() && ids[j] == t;
                assert(pre[j] == t);
            }
            if t < n && spec_query_matches(fetches, filters, w.archetypes@[t as int]) {
                assert(t != n - 1);
                let j = choose|j: int| 0 <= j < pre.len() && pre[j] == t;
                assert(ids[j] == t);
            }
        }
    }
}

/// The match list is strictly increasing, and bounded by `n`.
pub proof fn lemma_matching_ids_sorted(
    w: World,
    fetches: Seq<FetchKind>,
    filters: Seq<FilterKind>,
    n: int,
)
    requires
        0 <= n <= usize::MAX,
    ensures
        forall|i: int, j: int|
            0 <= i < j < spec_matching_ids(w, fetches, filters, n).len()
                ==> spec_matching_ids(w, fetches, filters, n)[i] < spec_matching_ids(
                w,
                fetches,
                filters,
                n,
            )[j],
        forall|i: int|
            0 <= i < spec_matching_ids(w, fetches, filters, n).len()
                ==> spec_matching_ids(w, fetches, filters, n)[i] < n,
    decreases n,
{
    if n > 0 {
        lemma_matching_ids_sorted(w, fetches, filters, n - 1);
        let pre = spec_matching_ids(w, fetches, filters, n - 1);
        let ids = spec_matching_ids(w, fetches, filters, n);
        if spec_query_matches(fetches, filters, w.archetypes@[n - 1]) {
            assert forall|i: int, j: int| 0 <= i < j < ids.len() implies ids[i] < ids[j] by {
                if j < pre.len() {
                    assert(pre[i] == ids[i] && pre[j] == ids[j]);
                    assert(pre[i] < pre[j]);
                } else {
                    assert(ids[j] == (n - 1) as usize);
                    assert(pre[i] == ids[i]);
                    assert(pre[i] < n - 1);
                }
            }
        }
    }
}

/// Matching is decided by the composition list alone, so a store extension
/// leaves the match list over the old archetypes unchanged.
pub proof fn lemma_matching_ids_extends(
    w0: World,
    w1: World,
    fetches: Seq<FetchKind>,
    filters: Seq<FilterKind>,
    n: int,
)
    requires
        0 <= n <= w0.archetypes@.len(),
        crate::world::spec_store_extends(w0, w1),
    ensures
        spec_matching_ids(w1, fetches, filters, n) == spec_matching_ids(w0, fetches, filters, n),
    decreases n,
{
    if n > 0 {
        lemma_matching_ids_extends(w0, w1, fetches, filters, n - 1);
        assert(w1.archetypes@[n - 1].components@ == w0.archetypes@[n - 1].components@);
        assert(spec_query_matches(fetches, filters, w1.archetypes@[n - 1])
            == spec_query_matches(fetches, filters, w0.archetypes@[n - 1])) by {
            lemma_matches_same_components(
                fetches,
                filters,
                w0.archetypes@[n - 1],
                w1.archetypes@[n - 1],
            );
        }
    }
}

/// Structural matching sees only the composition's field list.
pub proof fn lemma_matches_same_components(
    fetches: Seq<FetchKind>,
    filters: Seq<FilterKind>,
    a0: Archetype,
    a1: Archetype,
)
    requires
        a0.components@ == a1.components@,
    ensures
        spec_query_matches(fetches, filters, a0) == spec_query_matches(fetches, filters, a1),
{
    assert forall|c: ComponentId| true implies a0.spec_has(c) == a1.spec_has(c) by {
        if a0.spec_has(c) {
            let j = choose|j: int| 0 <= j < a0.components@.len() && a0.components@[j] == c;
            assert(a1.components@[j] == c);
        }
        if a1.spec_has(c) {
            let j = choose|j: int| 0 <= j < a1.components@.len() && a1.components@[j] == c;
            assert(a0.components@[j] == c);
        }
    }
    assert forall|i: int| 0 <= i < fetches.len() implies spec_fetch_matches(
        #[trigger] fetches[i],
        a0,
    ) == spec_fetch_matches(fetches[i], a1) by {
        assert(a0.spec_has(spec_fetch_comp(fetches[i])) == a1.spec_has(spec_fetch_comp(fetches[i])));
    }
    assert forall|i: int| 0 <= i < filters.len() implies spec_filter_matches(
        #[trigger] filters[i],
        a0,
    ) == spec_filter_matches(filters[i], a1) by {
        assert(a0.spec_has(spec_filter_comp(filters[i])) == a1.spec_has(
            spec_filter_comp(filters[i]),
        ));
    }
}

/// The bit positions named by a list of archetype or table indices.
pub open spec fn spec_ids_set(ids: Seq<usize>) -> Set<int> {
    Set::new(|b: int| exists|j: int| 0 <= j < ids.len() && (#[trigger] ids[j]) as int == b)
}

/// Adding the reads and writes of access request `i` to those of the first
/// `i` requests gives those of the first `i + 1`.
proof fn lemma_fetch_sets_step(fetches: Seq<FetchKind>, i: int)
    requires
        0 <= i < fetches.len(),
    ensures
        spec_fetch_reads(fetches, i + 1) == spec_fetch_reads(fetches, i).insert(
            spec_fetch_comp(fetches[i]).id as int,
        ),
        fetches[i] is RefMut ==> spec_fetch_writes(fetches, i + 1) == spec_fetch_writes(
            fetches,
            i,
        ).insert(spec_fetch_comp(fetches[i]).id as int),
        fetches[i] is Ref ==> spec_fetch_writes(fetches, i + 1) == spec_fetch_writes(fetches, i),
{
    let cid = spec_fetch_comp(fetches[i]).id as int;
    assert(spec_fetch_reads(fetches, i + 1) =~= spec_fetch_reads(fetches, i).insert(cid)) by {
        assert forall|b: int| spec_fetch_reads(fetches, i + 1).contains(b) implies spec_fetch_reads(
            fetches,
            i,
        ).insert(cid).contains(b) by {
            let j = choose|j: int| 0 <= j < i + 1 && spec_fetch_comp(#[trigger] fetches[j]).id == b;
            if j < i {
                assert(spec_fetch_reads(fetches, i).contains(b));
            }
        }
        assert forall|b: int| spec_fetch_reads(fetches, i).insert(cid).contains(b)
            implies spec_fetch_reads(fetches, i + 1).contains(b) by {
            if b == cid {
                assert(spec_fetch_comp(fetches[i]).id == b);
            } else {
                let j = choose|j: int|
                    0 <= j < i && spec_fetch_comp(#[trigger] fetches[j]).id == b;
                assert(spec_fetch_comp(fetches[j]).id == b);
            }
        }
    }
    if fetches[i] is RefMut {
        assert(spec_fetch_writes(fetches, i + 1) =~= spec_fetch_writes(fetches, i).insert(
            cid,
        )) by {
            assert forall|b: int| spec_fetch_writes(fetches, i + 1).contains(b)
                implies spec_fetch_writes(fetches, i).insert(cid).contains(b) by {
                let j = choose|j: int|
                    0 <= j < i + 1 && (#[trigger] fetches[j]) is RefMut && spec_fetch_comp(
                        fetches[j],
                    ).id == b;
                if j < i {
                    assert(spec_fetch_writes(fetches, i).contains(b));
                }
            }
            assert forall|b: int| spec_fetch_writes(fetches, i).insert(cid).contains(b)
                implies spec_fetch_writes(fetches, i + 1).contains(b) by {
                if b == cid {
                    assert((fetches[i]) is RefMut && spec_fetch_comp(fetches[i]).id == b);
                } else {
                    let j = choose|j: int|
                        0 <= j < i && (#[trigger] fetches[j]) is RefMut && spec_fetch_comp(
                            fetches[j],
                        ).id == b;
                    assert((fetches[j]) is RefMut && spec_fetch_comp(fetches[j]).id == b);
                }
            }
        }
    } else {
        assert(spec_fetch_writes(fetches, i + 1) =~= spec_fetch_writes(fetches, i)) by {
            assert forall|b: int| spec_fetch_writes(fetches, i + 1).contains(b)
                implies spec_fetch_writes(fetches, i).contains(b) by {
                let j = choose|j: int|
                    0 <= j < i + 1 && (#[trigger] fetches[j]) is RefMut && spec_fetch_comp(
                        fetches[j],
                    ).id == b;
                assert(j != i);
            }
            assert forall|b: int| spec_fetch_writes(fetches, i).contains(b)
                implies spec_fetch_writes(fetches, i + 1).contains(b) by {
                let j = choose|j: int|
                    0 <= j < i && (#[trigger] fetches[j]) is RefMut && spec_fetch_comp(
                        fetches[j],
                    ).id == b;
                assert((fetches[j]) is RefMut && spec_fetch_comp(fetches[j]).id == b);
            }
        }
    }
}

/// The final write set names exactly the exclusively fetched fields.
pub proof fn lemma_fetch_writes_comp(fetches: Seq<FetchKind>, c: ComponentId)
    ensures
        spec_fetch_writes(fetches, fetches.len() as int).contains(c.id as int)
            == spec_writes_comp(fetches, c),
{
    if spec_fetch_writes(fetches, fetches.len() as int).contains(c.id as int) {
        let j = choose|j: int|
            0 <= j < fetches.len() && (#[trigger] fetches[j]) is RefMut && spec_fetch_comp(
                fetches[j],
            ).id == c.id;
        assert(fetches[j] == FetchKind::RefMut(spec_fetch_comp(fetches[j])));
        assert(spec_fetch_comp(fetches[j]) == (ComponentId { id: c.id }));
        assert(fetches[j] == FetchKind::RefMut(c));
    }
    if spec_writes_comp(fetches, c) {
        let j = choose|j: int| 0 <= j < fetches.len() && #[trigger] fetches[j] == FetchKind::RefMut(
            c,
        );
        assert((fetches[j]) is RefMut && spec_fetch_comp(fetches[j]).id == c.id);
    }
}

impl FetchKind {
    /// The field this access request is about.
    pub fn component_id(self) -> (r: ComponentId)
        ensures
            r == spec_fetch_comp(self),
    {
        match self {
            FetchKind::Ref(id) => id,
            FetchKind::RefMut(id) => id,
        }
    }

    /// Composition-level membership test of this access request.
    pub fn matches_archetype(&self, archetype: &Archetype) -> (r: bool)
        ensures
            r == spec_fetch_matches(*self, *archetype),
    {
        match *self {
            FetchKind::Ref(component_id) => archetype.contains(component_id),
            FetchKind::RefMut(component_id) => archetype.contains(component_id),
        }
    }

    /// Merge this access request into the mask, failing on the first
    /// aliasing conflict: shared access may not coincide with exclusive
    /// access, and exclusive access must be unique.
    pub fn update_component_access(self, access: &mut FilteredAccess) -> (r: Result<
        (),
        QueryError,
    >)
        requires
            spec_fetch_comp(self).id < usize::MAX,
        ensures
            ({
                let c = spec_fetch_comp(self);
                match r {
                    Ok(_) => {
                        &&& self is Ref ==> !old(access).spec_writes().contains(c.id as int)
                        &&& self is RefMut ==> !old(access).spec_reads().contains(c.id as int)
                        &&& final(access).spec_reads() == old(access).spec_reads().insert(
                            c.id as int,
                        )
                        &&& final(access).spec_writes() == if self is RefMut {
                            old(access).spec_writes().insert(c.id as int)
                        } else {
                            old(access).spec_writes()
                        }
                        &&& final(access).spec_with() == old(access).spec_with()
                        &&& final(access).spec_without() == old(access).spec_without()
                    },
                    Err(e) => {
                        &&& *final(access) == *old(access)
                        &&& e == (QueryError::AliasConflict { component: c })
                        &&& self is Ref ==> old(access).spec_writes().contains(c.id as int)
                        &&& self is RefMut ==> old(access).spec_reads().contains(c.id as int)
                    },
                }
            }),
    {
        match self {
            FetchKind::Ref(id) => {
                if access.has_write(id) {
                    return Err(QueryError::AliasConflict { component: id });
                }
                access.add_read(id);
                Ok(())
            },
            FetchKind::RefMut(id) => {
                if access.has_read(id) {
                    return Err(QueryError::AliasConflict { component: id });
                }
                access.add_write(id);
                Ok(())
            },
        }
    }
}

impl FilterKind {
    /// The field this filter request is about.
    pub fn component_id(self) -> (r: ComponentId)
        ensures
            r == spec_filter_comp(self),
    {
        match self {
            FilterKind::With(id) => id,
            FilterKind::Without(id) => id,
            FilterKind::Changed(id) => id,
            FilterKind::Added(id) => id,
        }
    }

    /// Composition-level membership test of this filter request.
    pub fn matches_archetype(&self, archetype: &Archetype) -> (r: bool)
        ensures
            r == spec_filter_matches(*self, *archetype),
    {
        match *self {
            FilterKind::With(id) => archetype.contains(id),
            FilterKind::Without(id) => !archetype.contains(id),
            FilterKind::Changed(id) => archetype.contains(id),
            FilterKind::Added(id) => archetype.contains(id),
        }
    }

    /// Merge this filter request into the mask. Change-tracking filters
    /// read the field's metadata, so they conflict with an exclusive access
    /// on the same field.
    pub fn update_component_access(self, access: &mut FilteredAccess) -> (r: Result<
        (),
        QueryError,
    >)
        requires
            spec_filter_comp(self).id < usize::MAX,
        ensures
            ({
                let c = spec_filter_comp(self);
                match r {
                    Ok(_) => {
                        &&& (self is Changed || self is Added) ==> {
                            &&& !old(access).spec_writes().contains(c.id as int)
                            &&& final(access).spec_reads() == old(access).spec_reads().insert(
                                c.id as int,
                            )
                            &&& final(access).spec_with() == old(access).spec_with()
                            &&& final(access).spec_without() == old(access).spec_without()
                        }
                        &&& self is With ==> {
                            &&& final(access).spec_with() == old(access).spec_with().insert(
                                c.id as int,
                            )
                            &&& final(access).spec_reads() == old(access).spec_reads()
                            &&& final(access).spec_without() == old(access).spec_without()
                        }
                        &&& self is Without ==> {
                            &&& final(access).spec_without() == old(access).spec_without().insert(
                                c.id as int,
                            )
                            &&& final(access).spec_reads() == old(access).spec_reads()
                            &&& final(access).spec_with() == old(access).spec_with()
                        }
                        &&& final(access).spec_writes() == old(access).spec_writes()
                    },
                    Err(e) => {
                        &&& *final(access) == *old(access)
                        &&& e == (QueryError::AliasConflict { component: c })
                        &&& (self is Changed || self is Added)
                        &&& old(access).spec_writes().contains(c.id as int)
                    },
                }
            }),
    {
        match self {
            FilterKind::With(id) => {
                access.add_with(id);
                Ok(())
            },
            FilterKind::Without(id) => {
                access.add_without(id);
                Ok(())
            },
            FilterKind::Changed(id) => {
                if access.has_write(id) {
                    return Err(QueryError::AliasConflict { component: id });
                }
                access.add_read(id);
                Ok(())
            },
            FilterKind::Added(id) => {
                if access.has_write(id) {
                    return Err(QueryError::AliasConflict { component: id });
                }
                access.add_read(id);
                Ok(())
            },
        }
    }
}

/// A run-time-shaped query: the requested accesses and filters, the merged
/// access mask built at construction, and the incrementally maintained
/// match set (as archetype ids and, redundantly, table ids, each with a
/// membership bit set).
pub struct DynamicQuery {
    pub world_id: u64,
    pub component_fetches: Vec<FetchKind>,
    pub filters: Vec<FilterKind>,
    pub archetype_generation: usize,
    pub matched_tables: fixedbitset::FixedBitSet,
    pub matched_table_ids: Vec<usize>,
    pub matched_archetypes: fixedbitset::FixedBitSet,
    pub matched_archetype_ids: Vec<usize>,
    pub component_access: FilteredAccess,
}

impl DynamicQuery {
    /// The query's relation to the store it was built against: identity,
    /// known field ids, and a match set that is exactly the matching
    /// archetypes among those created before the watermark.
    pub open spec fn inv(self, w: World) -> bool {
        &&& self.world_id == w.id
        &&& forall|i: int|
            0 <= i < self.component_fetches@.len() ==> w.spec_known(
                spec_fetch_comp(#[trigger] self.component_fetches@[i]),
            )
        &&& forall|i: int|
            0 <= i < self.filters@.len() ==> w.spec_known(
                spec_filter_comp(#[trigger] self.filters@[i]),
            )
        &&& self.archetype_generation <= w.archetypes@.len()
        &&& self.matched_archetype_ids@ == spec_matching_ids(
            w,
            self.component_fetches@,
            self.filters@,
            self.archetype_generation as int,
        )
        &&& self.matched_table_ids@ == self.matched_archetype_ids@
        &&& bit_set_bits(self.matched_archetypes) == spec_ids_set(self.matched_archetype_ids@)
        &&& bit_set_bits(self.matched_tables) == spec_ids_set(self.matched_table_ids@)
    }

    /// The invariant only reads the store's registry and composition list,
    /// so it survives any store extension.
    pub proof fn lemma_inv_store_extends(self, w0: World, w1: World)
        requires
            self.inv(w0),
            crate::world::spec_store_extends(w0, w1),
        ensures
            self.inv(w1),
    {
        lemma_matching_ids_extends(
            w0,
            w1,
            self.component_fetches@,
            self.filters@,
            self.archetype_generation as int,
        );
    }

    /// Was this query built against this store?
    pub fn validate_world(&self, world: &World) -> (r: bool)
        ensures
            r == (self.world_id == world.id),
    {
        self.world_id == world.id
    }

    /// Build a query against a store. The merged access mask is built by
    /// applying each access request and then each filter request, in
    /// order; the first unknown field id or aliasing conflict fails the
    /// construction with an error naming the field.
    pub fn new(world: &World, component_fetches: Vec<FetchKind>, filters: Vec<FilterKind>) -> (r:
        Result<DynamicQuery, QueryError>)
        requires
            world.wf(),
        ensures
            match r {
                Ok(q) => {
                    &&& spec_build_error(*world, component_fetches@, filters@) is None
                    &&& q.inv(*world)
                    &&& q.component_fetches@ == component_fetches@
                    &&& q.filters@ == filters@
                    &&& q.world_id == world.id
                    &&& q.archetype_generation == world.archetypes@.len()
                },
                Err(e) => spec_build_error(*world, component_fetches@, filters@) == Some(e),
            },
    {
        let ghost w = *world;
        let ghost fetches_v = component_fetches@;
        let ghost filters_v = filters@;
        let mut component_access = FilteredAccess::new();
        let nf = component_fetches.len();
        let mut i: usize = 0;
        while i < nf
            invariant
                i <= nf,
                w == *world,
                w.wf(),
                nf == fetches_v.len(),
                component_fetches@ == fetches_v,
                filters@ == filters_v,
                component_access.spec_reads() == spec_fetch_reads(fetches_v, i as int),
                component_access.spec_writes() == spec_fetch_writes(fetches_v, i as int),
                component_access.wf(),
                spec_first_fetch_error(w, fetches_v, i as int) is None,
                forall|j: int|
                    0 <= j < i ==> w.spec_known(spec_fetch_comp(#[trigger] fetches_v[j])),
            decreases nf - i,
        {
            let c = component_fetches[i].component_id();
            if c.id >= world.components.len() {
                proof {
                    assert(spec_fetch_error_at(w, fetches_v, i as int) == Some(
                        QueryError::UnknownComponent { component: c },
                    ));
                    lemma_first_fetch_error_stable(w, fetches_v, i + 1, fetches_v.len() as int);
                }
                return Err(QueryError::UnknownComponent { component: c });
            }
            let res = component_fetches[i].update_component_access(&mut component_access);
            match res {
                Ok(_) => {
                    proof {
                        assert(spec_fetch_error_at(w, fetches_v, i as int) is None);
                        lemma_fetch_sets_step(fetches_v, i as int);
                    }
                },
                Err(e) => {
                    proof {
                        assert(spec_fetch_error_at(w, fetches_v, i as int) == Some(e));
                        lemma_first_fetch_error_stable(w, fetches_v, i + 1, fetches_v.len() as int);
                    }
                    return Err(e);
                },
            }
            i = i + 1;
        }
        let nl = filters.len();
        let mut i2: usize = 0;
        while i2 < nl
            invariant
                i2 <= nl,
                w == *world,
                w.wf(),
                nl == filters_v.len(),
                component_fetches@ == fetches_v,
                filters@ == filters_v,
                component_access.spec_writes() == spec_fetch_writes(
                    fetches_v,
                    fetches_v.len() as int,
                ),
                component_access.wf(),
                spec_first_fetch_error(w, fetches_v, fetches_v.len() as int) is None,
                spec_first_filter_error(w, fetches_v, filters_v, i2 as int) is None,
                forall|j: int|
                    0 <= j < fetches_v.len() ==> w.spec_known(
                        spec_fetch_comp(#[trigger] fetches_v[j]),
                    ),
                forall|j: int|
                    0 <= j < i2 ==> w.spec_known(spec_filter_comp(#[trigger] filters_v[j])),
            decreases nl - i2,
        {
            let c = filters[i2].component_id();
            if c.id >= world.components.len() {
                proof {
                    assert(spec_filter_error_at(w, fetches_v, filters_v, i2 as int) == Some(
                        QueryError::UnknownComponent { component: c },
                    ));
                    lemma_first_filter_error_stable(
                        w,
                        fetches_v,
                        filters_v,
                        i2 + 1,
                        filters_v.len() as int,
                    );
                }
                return Err(QueryError::UnknownComponent { component: c });
            }
            let res = filters[i2].update_component_access(&mut component_access);
            match res {
                Ok(_) => {
                    proof {
                        assert(spec_filter_error_at(w, fetches_v, filters_v, i2 as int) is None);
                    }
                },
                Err(e) => {
                    proof {
                        assert(spec_filter_error_at(w, fetches_v, filters_v, i2 as int) == Some(
                            e,
                        ));
                        lemma_first_filter_error_stable(
                            w,
                            fetches_v,
                            filters_v,
                            i2 + 1,
                            filters_v.len() as int,
                        );
                    }
                    return Err(e);
                },
            }
            i2 = i2 + 1;
        }
        let mut query = DynamicQuery {
            world_id: world.id,
            component_fetches,
            filters,
            archetype_generation: 0,
            matched_tables: bit_set_new(),
            matched_table_ids: Vec::new(),
            matched_archetypes: bit_set_new(),
            matched_archetype_ids: Vec::new(),
            component_access,
        };
        proof {
            assert(spec_ids_set(Seq::<usize>::empty()) =~= Set::<int>::empty());
            assert(query.inv(w));
        }
        query.update_archetypes(world);
        Ok(query)
    }

    /// Scan the archetypes created since the last scan (and only those)
    /// and extend the match set with the ones the query matches. Safe to
    /// call redundantly; called at the start of every iteration.
    pub fn update_archetypes(&mut self, world: &World)
        requires
            world.wf(),
            old(self).inv(*world),
        ensures
            final(self).inv(*world),
            final(self).archetype_generation == world.archetypes@.len(),
            final(self).world_id == old(self).world_id,
            final(self).component_fetches@ == old(self).component_fetches@,
            final(self).filters@ == old(self).filters@,
            final(self).component_access == old(self).component_access,
            final(self).matched_archetype_ids@ == spec_matching_ids(
                *world,
                old(self).component_fetches@,
                old(self).filters@,
                world.archetypes@.len() as int,
            ),
            final(self).matched_table_ids@ == final(self).matched_archetype_ids@,
    {
        let ghost w = *world;
        let new_generation = world.archetypes.len();
        let mut a = self.archetype_generation;
        while a < new_generation
            invariant
                a <= new_generation,
                w == *world,
                w.wf(),
                new_generation == w.archetypes@.len(),
                self.world_id == old(self).world_id,
                self.component_fetches@ == old(self).component_fetches@,
                self.filters@ == old(self).filters@,
                self.component_access == old(self).component_access,
                self.archetype_generation == old(self).archetype_generation,
                forall|i: int|
                    0 <= i < self.component_fetches@.len() ==> w.spec_known(
                        spec_fetch_comp(#[trigger] self.component_fetches@[i]),
                    ),
                forall|i: int|
                    0 <= i < self.filters@.len() ==> w.spec_known(
                        spec_filter_comp(#[trigger] self.filters@[i]),
                    ),
                self.matched_archetype_ids@ == spec_matching_ids(
                    w,
                    self.component_fetches@,
                    self.filters@,
                    a as int,
                ),
                self.matched_table_ids@ == self.matched_archetype_ids@,
                bit_set_bits(self.matched_archetypes) == spec_ids_set(
                    self.matched_archetype_ids@,
                ),
                bit_set_bits(self.matched_tables) == spec_ids_set(self.matched_table_ids@),
            decreases new_generation - a,
        {
            self.new_archetype(world, a);
            a = a + 1;
        }
        self.archetype_generation = new_generation;
    }

    /// Test one newly seen archetype against the query and record it in
    /// the match set if every access and filter request matches.
    fn new_archetype(&mut self, world: &World, a: usize)
        requires
            world.wf(),
            a < world.archetypes@.len(),
            a < usize::MAX,
            old(self).matched_archetype_ids@ == spec_matching_ids(
                *world,
                old(self).component_fetches@,
                old(self).filters@,
                a as int,
            ),
            old(self).matched_table_ids@ == old(self).matched_archetype_ids@,
            bit_set_bits(old(self).matched_archetypes) == spec_ids_set(
                old(self).matched_archetype_ids@,
            ),
            bit_set_bits(old(self).matched_tables) == spec_ids_set(old(self).matched_table_ids@),
        ensures
            final(self).world_id == old(self).world_id,
            final(self).component_fetches@ == old(self).component_fetches@,
            final(self).filters@ == old(self).filters@,
            final(self).component_access == old(self).component_access,
            final(self).archetype_generation == old(self).archetype_generation,
            final(self).matched_archetype_ids@ == spec_matching_ids(
                *world,
                old(self).component_fetches@,
                old(self).filters@,
                a + 1,
            ),
            final(self).matched_table_ids@ == final(self).matched_archetype_ids@,
            bit_set_bits(final(self).matched_archetypes) == spec_ids_set(
                final(self).matched_archetype_ids@,
            ),
            bit_set_bits(final(self).matched_tables) == spec_ids_set(
                final(self).matched_table_ids@,
            ),
    {
        let ghost w = *world;
        let ghost fetches_v = self.component_fetches@;
        let ghost filters_v = self.filters@;
        let archetype = &world.archetypes[a];
        let nf = self.component_fetches.len();
        let mut i: usize = 0;
        while i < nf
            invariant
                i <= nf,
                w == *world,
                a < w.archetypes@.len(),
                nf == fetches_v.len(),
                self.component_fetches@ == fetches_v,
                *archetype == w.archetypes@[a as int],
                *self == *old(self),
                fetches_v == old(self).component_fetches@,
                filters_v == old(self).filters@,
                old(self).matched_archetype_ids@ == spec_matching_ids(
                    w,
                    fetches_v,
                    filters_v,
                    a as int,
                ),
                old(self).matched_table_ids@ == old(self).matched_archetype_ids@,
                bit_set_bits(old(self).matched_archetypes) == spec_ids_set(
                    old(self).matched_archetype_ids@,
                ),
                bit_set_bits(old(self).matched_tables) == spec_ids_set(
                    old(self).matched_table_ids@,
                ),
                forall|j: int|
                    0 <= j < i ==> spec_fetch_matches(#[trigger] fetches_v[j], w.archetypes@[a as int]),
            decreases nf - i,
        {
            if !self.component_fetches[i].matches_archetype(archetype) {
                proof {
                    assert(!spec_query_matches(fetches_v, filters_v, w.archetypes@[a as int]));
                }
                return ;
            }
            i = i + 1;
        }
        let nl = self.filters.len();
        let mut i2: usize = 0;
        while i2 < nl
            invariant
                i2 <= nl,
                w == *world,
                a < w.archetypes@.len(),
                nl == filters_v.len(),
                self.filters@ == filters_v,
                self.component_fetches@ == fetches_v,
                *archetype == w.archetypes@[a as int],
                *self == *old(self),
                fetches_v == old(self).component_fetches@,
                filters_v == old(self).filters@,
                old(self).matched_archetype_ids@ == spec_matching_ids(
                    w,
                    fetches_v,
                    filters_v,
                    a as int,
                ),
                old(self).matched_table_ids@ == old(self).matched_archetype_ids@,
                bit_set_bits(old(self).matched_archetypes) == spec_ids_set(
                    old(self).matched_archetype_ids@,
                ),
                bit_set_bits(old(self).matched_tables) == spec_ids_set(
                    old(self).matched_table_ids@,
                ),
                forall|j: int|
                    0 <= j < fetches_v.len() ==> spec_fetch_matches(
                        #[trigger] fetches_v[j],
                        w.archetypes@[a as int],
                    ),
                forall|j: int|
                    0 <= j < i2 ==> spec_filter_matches(
                        #[trigger] filters_v[j],
                        w.archetypes@[a as int],
                    ),
            decreases nl - i2,
        {
            if !self.filters[i2].matches_archetype(archetype) {
                proof {
                    assert(!spec_query_matches(fetches_v, filters_v, w.archetypes@[a as int]));
                }
                return ;
            }
            i2 = i2 + 1;
        }
        proof {
            assert(spec_query_matches(fetches_v, filters_v, w.archetypes@[a as int]));
            lemma_matching_ids_sorted(w, fetches_v, filters_v, a as int);
            assert(!spec_ids_set(old(self).matched_archetype_ids@).contains(a as int)) by {
                if spec_ids_set(old(self).matched_archetype_ids@).contains(a as int) {
                    let j = choose|j: int|
                        0 <= j < old(self).matched_archetype_ids@.len() && (
                        #[trigger] old(self).matched_archetype_ids@[j]) as int == a as int;
                    assert(old(self).matched_archetype_ids@[j] < a);
                }
            }
        }
        let archetype_index = a;
        if !bit_set_contains(&self.matched_archetypes, archetype_index) {
            bit_set_grow(&mut self.matched_archetypes, archetype_index + 1);
            bit_set_put(&mut self.matched_archetypes, archetype_index);
            self.matched_archetype_ids.push(archetype_index);
        }
        let table_index = world.archetypes[a].table_id;
        proof {
            assert(w.arch_components_wf(a as int));
            assert(w.arch_table_wf(a as int));
            assert(table_index == a);
        }
        if !bit_set_contains(&self.matched_tables, table_index) {
            bit_set_grow(&mut self.matched_tables, table_index + 1);
            bit_set_put(&mut self.matched_tables, table_index);
            self.matched_table_ids.push(table_index);
        }
        proof {
            assert(self.matched_archetype_ids@ == old(self).matched_archetype_ids@.push(a));
            assert(spec_ids_set(self.matched_archetype_ids@) =~= spec_ids_set(
                old(self).matched_archetype_ids@,
            ).insert(a as int)) by {
                lemma_ids_set_push(old(self).matched_archetype_ids@, a);
            }
            assert(spec_ids_set(self.matched_table_ids@) =~= spec_ids_set(
                old(self).matched_table_ids@,
            ).insert(a as int)) by {
                lemma_ids_set_push(old(self).matched_table_ids@, a);
            }
        }
    }
}

/// Does every field the query touches live in table storage? Only then may
/// iteration take the dense path.
pub open spec fn spec_is_dense(w: World, fetches: Seq<FetchKind>, filters: Seq<FilterKind>) -> bool {
    &&& forall|i: int|
        0 <= i < fetches.len() ==> w.spec_storage(spec_fetch_comp(#[trigger] fetches[i])) is Table
    &&& forall|i: int|
        0 <= i < filters.len() ==> w.spec_storage(spec_filter_comp(#[trigger] filters[i])) is Table
}

/// Matching reads only the composition list, which these stores share.
pub proof fn lemma_matching_ids_same_archetypes(
    w0: World,
    w1: World,
    fetches: Seq<FetchKind>,
    filters: Seq<FilterKind>,
    n: int,
)
    requires
        0 <= n,
        w1.archetypes@ == w0.archetypes@,
    ensures
        spec_matching_ids(w1, fetches, filters, n) == spec_matching_ids(w0, fetches, filters, n),
    decreases n,
{
    if n > 0 {
        lemma_matching_ids_same_archetypes(w0, w1, fetches, filters, n - 1);
    }
}

impl DynamicQuery {
    /// Are all touched fields table-backed, so that the dense strategy is
    /// allowed for this query?
    pub fn is_dense(&self, world: &World) -> (r: bool)
        requires
            world.wf(),
            self.inv(*world),
        ensures
            r == spec_is_dense(*world, self.component_fetches@, self.filters@),
    {
        let nf = self.component_fetches.len();
        let mut i: usize = 0;
        while i < nf
            invariant
                i <= nf,
                world.wf(),
                self.inv(*world),
                nf == self.component_fetches@.len(),
                forall|j: int|
                    0 <= j < i ==> world.spec_storage(
                        spec_fetch_comp(#[trigger] self.component_fetches@[j]),
                    ) is Table,
            decreases nf - i,
        {
            let c = self.component_fetches[i].component_id();
            let is_table = match world.components[c.id].storage_type {
                StorageType::Table => true,
                StorageType::SparseSet => false,
            };
            if !is_table {
                return false;
            }
            i = i + 1;
        }
        let nl = self.filters.len();
        let mut i2: usize = 0;
        while i2 < nl
            invariant
                i2 <= nl,
                world.wf(),
                self.inv(*world),
                nl == self.filters@.len(),
                forall|j: int|
                    0 <= j < self.component_fetches@.len() ==> world.spec_storage(
                        spec_fetch_comp(#[trigger] self.component_fetches@[j]),
                    ) is Table,
                forall|j: int|
                    0 <= j < i2 ==> world.spec_storage(
                        spec_filter_comp(#[trigger] self.filters@[j]),
                    ) is Table,
            decreases nl - i2,
        {
            let c = self.filters[i2].component_id();
            let is_table = match world.components[c.id].storage_type {
                StorageType::Table => true,
                StorageType::SparseSet => false,
            };
            if !is_table {
                return false;
            }
            i2 = i2 + 1;
        }
        true
    }

    /// One full iteration pass over an up-to-date match set, with an
    /// explicit tick window: yields, per matching entity in composition
    /// creation order then row order, the entity and its fetched handles,
    /// and records write ticks for every exclusively fetched slot. The
    /// dense strategy (over the matched tables) is chosen exactly when
    /// every touched field is table-backed; both strategies meet this one
    /// contract.
    pub fn iter_manual(&self, world: &mut World, last_change_tick: u32, change_tick: u32) -> (r:
        Vec<DynamicQueryItem>)
        requires
            old(world).wf(),
            self.inv(*old(world)),
            self.archetype_generation == old(world).archetypes@.len(),
        ensures
            final(world).wf(),
            self.inv(*final(world)),
            spec_iterate_post(
                *old(world),
                *final(world),
                self.component_fetches@,
                self.filters@,
                last_change_tick,
                change_tick,
            ),
            ({
                let ids = spec_matching_ids(
                    *old(world),
                    self.component_fetches@,
                    self.filters@,
                    old(world).archetypes@.len() as int,
                );
                let pairs = spec_yield_pairs(
                    *old(world),
                    self.filters@,
                    ids,
                    last_change_tick,
                    change_tick,
                );
                &&& r@.len() == pairs.len()
                &&& forall|i: int|
                    0 <= i < pairs.len() ==> {
                        &&& (#[trigger] r@[i]).entity == old(world).spec_entity_at(
                            pairs[i].0,
                            pairs[i].1,
                        )
                        &&& r@[i].items@ == spec_fetch_row(
                            *old(world),
                            self.component_fetches@,
                            pairs[i].0,
                            pairs[i].1,
                            last_change_tick,
                            change_tick,
                        )
                    }
            }),
    {
        let dense = self.is_dense(world);
        proof {
            self.lemma_matched_ids_usable(*world);
        }
        let r = if dense {
            crate::query_iter::iter_dense(
                world,
                &self.component_fetches,
                &self.filters,
                &self.matched_table_ids,
                last_change_tick,
                change_tick,
            )
        } else {
            crate::query_iter::iter_general(
                world,
                &self.component_fetches,
                &self.filters,
                &self.matched_archetype_ids,
                last_change_tick,
                change_tick,
            )
        };
        proof {
            self.lemma_iterate_post_from_done(*old(world), *world, last_change_tick, change_tick);
        }
        r
    }

    /// A forced general-strategy pass: the same contract as `iter_manual`,
    /// walking the matched archetypes even when the dense strategy would
    /// be allowed.
    pub fn iter_manual_general(
        &self,
        world: &mut World,
        last_change_tick: u32,
        change_tick: u32,
    ) -> (r: Vec<DynamicQueryItem>)
        requires
            old(world).wf(),
            self.inv(*old(world)),
            self.archetype_generation == old(world).archetypes@.len(),
        ensures
            final(world).wf(),
            self.inv(*final(world)),
            spec_iterate_post(
                *old(world),
                *final(world),
                self.component_fetches@,
                self.filters@,
                last_change_tick,
                change_tick,
            ),
            ({
                let ids = spec_matching_ids(
                    *old(world),
                    self.component_fetches@,
                    self.filters@,
                    old(world).archetypes@.len() as int,
                );
                let pairs = spec_yield_pairs(
                    *old(world),
                    self.filters@,
                    ids,
                    last_change_tick,
                    change_tick,
                );
                &&& r@.len() == pairs.len()
                &&& forall|i: int|
                    0 <= i < pairs.len() ==> {
                        &&& (#[trigger] r@[i]).entity == old(world).spec_entity_at(
                            pairs[i].0,
                            pairs[i].1,
                        )
                        &&& r@[i].items@ == spec_fetch_row(
                            *old(world),
                            self.component_fetches@,
                            pairs[i].0,
                            pairs[i].1,
                            last_change_tick,
                            change_tick,
                        )
                    }
            }),
    {
        proof {
            self.lemma_matched_ids_usable(*world);
        }
        let r = crate::query_iter::iter_general(
            world,
            &self.component_fetches,
            &self.filters,
            &self.matched_archetype_ids,
            last_change_tick,
            change_tick,
        );
        proof {
            self.lemma_iterate_post_from_done(*old(world), *world, last_change_tick, change_tick);
        }
        r
    }

    /// The match list is fit for iteration: strictly increasing, in
    /// bounds, and naming exactly the matching archetypes.
    proof fn lemma_matched_ids_usable(self, w: World)
        requires
            w.wf(),
            self.inv(w),
            self.archetype_generation == w.archetypes@.len(),
        ensures
            forall|j: int|
                0 <= j < self.matched_archetype_ids@.len() ==> (
                #[trigger] self.matched_archetype_ids@[j]) < w.archetypes@.len()
                    && spec_query_matches(
                    self.component_fetches@,
                    self.filters@,
                    w.archetypes@[self.matched_archetype_ids@[j] as int],
                ),
            forall|j1: int, j2: int|
                0 <= j1 < j2 < self.matched_archetype_ids@.len()
                    ==> self.matched_archetype_ids@[j1] < self.matched_archetype_ids@[j2],
    {
        let n = w.archetypes@.len() as int;
        let ids = self.matched_archetype_ids@;
        lemma_matching_ids_sorted(w, self.component_fetches@, self.filters@, n);
        assert forall|j: int| 0 <= j < ids.len() implies (#[trigger] ids[j]) < w.archetypes@.len()
            && spec_query_matches(
            self.component_fetches@,
            self.filters@,
            w.archetypes@[ids[j] as int],
        ) by {
            assert(ids.contains(ids[j]));
            lemma_matching_ids_contains(w, self.component_fetches@, self.filters@, n, ids[j]);
        }
    }

    /// After the general walker has processed the whole match list, the
    /// public iteration description holds, and the query still matches the
    /// store.
    proof fn lemma_iterate_post_from_done(self, w0: World, w1: World, last: u32, cur: u32)
        requires
            w0.wf(),
            self.inv(w0),
            self.archetype_generation == w0.archetypes@.len(),
            crate::query_iter::spec_done_post(
                w0,
                w1,
                self.component_fetches@,
                self.filters@,
                self.matched_archetype_ids@,
                last,
                cur,
            ),
        ensures
            crate::query_iter::spec_iterate_post(
                w0,
                w1,
                self.component_fetches@,
                self.filters@,
                last,
                cur,
            ),
            self.inv(w1),
    {
        crate::query_iter::lemma_done_post_full(
            w0,
            w1,
            self.component_fetches@,
            self.filters@,
            last,
            cur,
        );
        lemma_matching_ids_same_archetypes(
            w0,
            w1,
            self.component_fetches@,
            self.filters@,
            self.archetype_generation as int,
        );
    }

    /// One full iteration pass: extend the match set with any archetypes
    /// created since the last use, then walk it under the store's current
    /// tick window.
    pub fn iter_mut(&mut self, world: &mut World) -> (r: Vec<DynamicQueryItem>)
        requires
            old(world).wf(),
            old(self).inv(*old(world)),
        ensures
            final(world).wf(),
            final(self).inv(*final(world)),
            final(self).component_fetches@ == old(self).component_fetches@,
            final(self).filters@ == old(self).filters@,
            final(self).world_id == old(self).world_id,
            final(self).archetype_generation == final(world).archetypes@.len(),
            spec_iterate_post(
                *old(world),
                *final(world),
                old(self).component_fetches@,
                old(self).filters@,
                old(world).last_change_tick,
                old(world).change_tick,
            ),
            ({
                let ids = spec_matching_ids(
                    *old(world),
                    old(self).component_fetches@,
                    old(self).filters@,
                    old(world).archetypes@.len() as int,
                );
                let pairs = spec_yield_pairs(
                    *old(world),
                    old(self).filters@,
                    ids,
                    old(world).last_change_tick,
                    old(world).change_tick,
                );
                &&& r@.len() == pairs.len()
                &&& forall|i: int|
                    0 <= i < pairs.len() ==> {
                        &&& (#[trigger] r@[i]).entity == old(world).spec_entity_at(
                            pairs[i].0,
                            pairs[i].1,
                        )
                        &&& r@[i].items@ == spec_fetch_row(
                            *old(world),
                            old(self).component_fetches@,
                            pairs[i].0,
                            pairs[i].1,
                            old(world).last_change_tick,
                            old(world).change_tick,
                        )
                    }
            }),
    {
        self.update_archetypes(world);
        let last = world.last_change_tick;
        let cur = world.change_tick;
        self.iter_manual(world, last, cur)
    }
}

/// Appending an id to a list adds exactly its bit to the named positions.
proof fn lemma_ids_set_push(ids: Seq<usize>, x: usize)
    ensures
        spec_ids_set(ids.push(x)) == spec_ids_set(ids).insert(x as int),
{
    assert(spec_ids_set(ids.push(x)) =~= spec_ids_set(ids).insert(x as int)) by {
        assert forall|b: int| spec_ids_set(ids.push(x)).contains(b) implies spec_ids_set(ids)
            .insert(x as int).contains(b) by {
            let j = choose|j: int|
                0 <= j < ids.push(x).len() && (#[trigger] ids.push(x)[j]) as int == b;
            if j < ids.len() {
                assert(ids[j] as int == b);
            }
        }
        assert forall|b: int| spec_ids_set(ids).insert(x as int).contains(b)
            implies spec_ids_set(ids.push(x)).contains(b) by {
            if b == x as int {
                assert(ids.push(x)[ids.len() as int] as int == b);
            } else {
                let j = choose|j: int| 0 <= j < ids.len() && (#[trigger] ids[j]) as int == b;
                assert(ids.push(x)[j] as int == b);
            }
        }
    }
}

} // verus!
