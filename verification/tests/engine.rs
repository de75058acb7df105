use dynamic_query::dynamic_query::{DynamicQuery, FetchKind, FetchResult, FilterKind, QueryError};
use dynamic_query::world::{ComponentId, StorageType, World};

fn entity_indices(items: &[dynamic_query::dynamic_query::DynamicQueryItem]) -> Vec<u32> {
    items.iter().map(|it| it.entity.index).collect()
}

fn values_of(items: &[dynamic_query::dynamic_query::DynamicQueryItem]) -> Vec<Vec<u64>> {
    items
        .iter()
        .map(|it| {
            it.items
                .iter()
                .map(|f| match f {
                    FetchResult::Ref { value } => *value,
                    FetchResult::RefMut { value, .. } => *value,
                })
                .collect()
        })
        .collect()
}

#[test]
fn aliasing_read_then_write_is_rejected() {
    let mut world = World::new(1);
    let a = world.register_component(StorageType::Table);
    let r = DynamicQuery::new(&world, vec![FetchKind::Ref(a), FetchKind::RefMut(a)], vec![]);
    assert_eq!(r.err(), Some(QueryError::AliasConflict { component: a }));
}

#[test]
fn aliasing_write_then_read_is_rejected() {
    let mut world = World::new(1);
    let a = world.register_component(StorageType::Table);
    let r = DynamicQuery::new(&world, vec![FetchKind::RefMut(a), FetchKind::Ref(a)], vec![]);
    assert_eq!(r.err(), Some(QueryError::AliasConflict { component: a }));
}

#[test]
fn aliasing_double_write_is_rejected() {
    let mut world = World::new(1);
    let a = world.register_component(StorageType::Table);
    let r = DynamicQuery::new(&world, vec![FetchKind::RefMut(a), FetchKind::RefMut(a)], vec![]);
    assert_eq!(r.err(), Some(QueryError::AliasConflict { component: a }));
}

#[test]
fn shared_reads_are_accepted() {
    let mut world = World::new(1);
    let a = world.register_component(StorageType::Table);
    let r = DynamicQuery::new(&world, vec![FetchKind::Ref(a), FetchKind::Ref(a)], vec![]);
    assert!(r.is_ok());
}

#[test]
fn distinct_fields_do_not_conflict() {
    let mut world = World::new(1);
    let a = world.register_component(StorageType::Table);
    let b = world.register_component(StorageType::Table);
    let r = DynamicQuery::new(&world, vec![FetchKind::RefMut(a), FetchKind::RefMut(b)], vec![]);
    assert!(r.is_ok());
}

#[test]
fn change_filter_on_written_field_is_rejected() {
    let mut world = World::new(1);
    let a = world.register_component(StorageType::Table);
    let r = DynamicQuery::new(
        &world,
        vec![FetchKind::RefMut(a)],
        vec![FilterKind::Changed(a)],
    );
    assert_eq!(r.err(), Some(QueryError::AliasConflict { component: a }));
}

#[test]
fn unknown_field_is_rejected() {
    let mut world = World::new(1);
    let _a = world.register_component(StorageType::Table);
    let ghost = ComponentId { id: 7 };
    let r = DynamicQuery::new(&world, vec![FetchKind::Ref(ghost)], vec![]);
    assert_eq!(r.err(), Some(QueryError::UnknownComponent { component: ghost }));
}

#[test]
fn first_conflict_in_request_order_is_reported() {
    let mut world = World::new(1);
    let a = world.register_component(StorageType::Table);
    let b = world.register_component(StorageType::Table);
    let r = DynamicQuery::new(
        &world,
        vec![
            FetchKind::RefMut(b),
            FetchKind::RefMut(b),
            FetchKind::Ref(a),
            FetchKind::RefMut(a),
        ],
        vec![],
    );
    assert_eq!(r.err(), Some(QueryError::AliasConflict { component: b }));
}

#[test]
fn presence_query_yields_matching_entities_in_order() {
    // Entities e1{A,B}, e2{A}, e3{B}; the query {access: [Read(A)],
    // filter: [With(A)]} must yield exactly e1 and e2, in composition
    // creation order, each with one handle to A.
    let mut world = World::new(1);
    let a = world.register_component(StorageType::Table);
    let b = world.register_component(StorageType::Table);
    let e1 = world.spawn(vec![a, b], vec![11, 21]);
    let e2 = world.spawn(vec![a], vec![12]);
    let e3 = world.spawn(vec![b], vec![23]);
    let mut q = DynamicQuery::new(&world, vec![FetchKind::Ref(a)], vec![FilterKind::With(a)])
        .unwrap();
    let items = q.iter_mut(&mut world);
    assert_eq!(entity_indices(&items), vec![e1.index, e2.index]);
    assert_ne!(entity_indices(&items), vec![e3.index]);
    assert_eq!(values_of(&items), vec![vec![11], vec![12]]);
}

#[test]
fn incremental_rerun_picks_up_new_composition() {
    let mut world = World::new(1);
    let a = world.register_component(StorageType::Table);
    let b = world.register_component(StorageType::Table);
    let c = world.register_component(StorageType::Table);
    let e1 = world.spawn(vec![a, b], vec![11, 21]);
    let e2 = world.spawn(vec![a], vec![12]);
    let _e3 = world.spawn(vec![b], vec![23]);
    let mut q = DynamicQuery::new(&world, vec![FetchKind::Ref(a)], vec![FilterKind::With(a)])
        .unwrap();
    let first = q.iter_mut(&mut world);
    assert_eq!(entity_indices(&first), vec![e1.index, e2.index]);
    // a new composition appears between two passes of the same query
    let e4 = world.spawn(vec![a, c], vec![14, 34]);
    let second = q.iter_mut(&mut world);
    assert_eq!(entity_indices(&second), vec![e1.index, e2.index, e4.index]);
}

#[test]
fn each_matching_entity_is_yielded_exactly_once() {
    let mut world = World::new(1);
    let a = world.register_component(StorageType::Table);
    let b = world.register_component(StorageType::SparseSet);
    world.spawn(vec![a], vec![1]);
    world.spawn(vec![a, b], vec![2, 3]);
    world.spawn(vec![a], vec![4]);
    let mut q = DynamicQuery::new(&world, vec![FetchKind::Ref(a)], vec![]).unwrap();
    let items = q.iter_mut(&mut world);
    let mut seen = entity_indices(&items);
    assert_eq!(seen.len(), 3);
    seen.sort();
    seen.dedup();
    assert_eq!(seen.len(), 3);
}

#[test]
fn without_filter_excludes_composition() {
    let mut world = World::new(1);
    let a = world.register_component(StorageType::Table);
    let b = world.register_component(StorageType::Table);
    let _e1 = world.spawn(vec![a, b], vec![11, 21]);
    let e2 = world.spawn(vec![a], vec![12]);
    let mut q = DynamicQuery::new(
        &world,
        vec![FetchKind::Ref(a)],
        vec![FilterKind::Without(b)],
    )
    .unwrap();
    let items = q.iter_mut(&mut world);
    assert_eq!(entity_indices(&items), vec![e2.index]);
}

#[test]
fn query_over_empty_store_yields_nothing() {
    let mut world = World::new(1);
    let a = world.register_component(StorageType::Table);
    let mut q = DynamicQuery::new(&world, vec![FetchKind::Ref(a)], vec![]).unwrap();
    let items = q.iter_mut(&mut world);
    assert!(items.is_empty());
}

#[test]
fn empty_query_yields_every_entity() {
    let mut world = World::new(1);
    let a = world.register_component(StorageType::Table);
    let b = world.register_component(StorageType::SparseSet);
    world.spawn(vec![a], vec![1]);
    world.spawn(vec![b], vec![2]);
    world.spawn(vec![], vec![]);
    let mut q = DynamicQuery::new(&world, vec![], vec![]).unwrap();
    let items = q.iter_mut(&mut world);
    assert_eq!(items.len(), 3);
    assert!(items.iter().all(|it| it.items.is_empty()));
}

#[test]
fn sparse_fields_are_fetched_through_the_general_path() {
    let mut world = World::new(1);
    let a = world.register_component(StorageType::Table);
    let s = world.register_component(StorageType::SparseSet);
    let e1 = world.spawn(vec![a, s], vec![10, 100]);
    let _e2 = world.spawn(vec![a], vec![20]);
    let mut q = DynamicQuery::new(
        &world,
        vec![FetchKind::Ref(a), FetchKind::Ref(s)],
        vec![],
    )
    .unwrap();
    let items = q.iter_mut(&mut world);
    assert_eq!(entity_indices(&items), vec![e1.index]);
    assert_eq!(values_of(&items), vec![vec![10, 100]]);
}

#[test]
fn dense_and_forced_general_walks_agree() {
    let mut world = World::new(1);
    let a = world.register_component(StorageType::Table);
    let b = world.register_component(StorageType::Table);
    world.spawn(vec![a], vec![1]);
    world.spawn(vec![a, b], vec![2, 3]);
    world.spawn(vec![b], vec![4]);
    world.spawn(vec![a], vec![5]);
    let mut q = DynamicQuery::new(&world, vec![FetchKind::Ref(a)], vec![]).unwrap();
    assert!(q.is_dense(&world));
    let last = world.last_change_tick;
    let cur = world.change_tick;
    q.update_archetypes(&world);
    let dense = q.iter_manual(&mut world, last, cur);
    let general = q.iter_manual_general(&mut world, last, cur);
    assert_eq!(entity_indices(&dense), entity_indices(&general));
    assert_eq!(values_of(&dense), values_of(&general));
}

#[test]
fn mixed_storage_forces_general_strategy() {
    let mut world = World::new(1);
    let a = world.register_component(StorageType::Table);
    let s = world.register_component(StorageType::SparseSet);
    world.spawn(vec![a, s], vec![1, 2]);
    let q = DynamicQuery::new(&world, vec![FetchKind::Ref(a), FetchKind::Ref(s)], vec![])
        .unwrap();
    assert!(!q.is_dense(&world));
    let q2 = DynamicQuery::new(&world, vec![FetchKind::Ref(a)], vec![FilterKind::Changed(s)])
        .unwrap();
    assert!(!q2.is_dense(&world));
}

#[test]
fn write_fetch_marks_slot_changed_even_if_unused() {
    let mut world = World::new(1);
    let a = world.register_component(StorageType::Table);
    let b = world.register_component(StorageType::Table);
    let e1 = world.spawn(vec![a, b], vec![1, 2]);
    // move the write counter forward, then run a write-mode pass whose
    // yielded handles are dropped without being read
    world.increment_change_tick();
    let mut wq = DynamicQuery::new(&world, vec![FetchKind::RefMut(a)], vec![]).unwrap();
    let yielded = wq.iter_mut(&mut world);
    assert_eq!(yielded.len(), 1);
    drop(yielded);
    // a change-tracking query over a window that starts after the spawn
    // tick and covers the write tick must now see the entity
    world.set_last_change_tick(1);
    let mut cq = DynamicQuery::new(&world, vec![], vec![FilterKind::Changed(a)]).unwrap();
    let changed = cq.iter_mut(&mut world);
    assert_eq!(entity_indices(&changed), vec![e1.index]);
    // the field that was not write-fetched is unchanged in that window
    let mut cq2 = DynamicQuery::new(&world, vec![], vec![FilterKind::Changed(b)]).unwrap();
    let unchanged = cq2.iter_mut(&mut world);
    assert_eq!(unchanged.len(), 0);
}

#[test]
fn sparse_write_fetch_marks_slot_changed() {
    let mut world = World::new(1);
    let s = world.register_component(StorageType::SparseSet);
    let e1 = world.spawn(vec![s], vec![7]);
    world.increment_change_tick();
    let mut wq = DynamicQuery::new(&world, vec![FetchKind::RefMut(s)], vec![]).unwrap();
    let _ = wq.iter_mut(&mut world);
    world.set_last_change_tick(1);
    let mut cq = DynamicQuery::new(&world, vec![], vec![FilterKind::Changed(s)]).unwrap();
    let changed = cq.iter_mut(&mut world);
    assert_eq!(entity_indices(&changed), vec![e1.index]);
}

#[test]
fn added_filter_sees_only_entities_created_in_window() {
    let mut world = World::new(1);
    let a = world.register_component(StorageType::Table);
    let _e1 = world.spawn(vec![a], vec![1]);
    // close the window over the first spawn, then create another entity
    world.set_last_change_tick(world.change_tick);
    world.increment_change_tick();
    let e2 = world.spawn(vec![a], vec![2]);
    let mut q = DynamicQuery::new(&world, vec![FetchKind::Ref(a)], vec![FilterKind::Added(a)])
        .unwrap();
    let items = q.iter_mut(&mut world);
    assert_eq!(entity_indices(&items), vec![e2.index]);
}

#[test]
fn yields_follow_creation_then_row_order() {
    let mut world = World::new(1);
    let a = world.register_component(StorageType::Table);
    let b = world.register_component(StorageType::Table);
    let e1 = world.spawn(vec![a], vec![1]);
    let e2 = world.spawn(vec![a, b], vec![2, 0]);
    let e3 = world.spawn(vec![a], vec![3]);
    let e4 = world.spawn(vec![a, b], vec![4, 0]);
    let mut q = DynamicQuery::new(&world, vec![FetchKind::Ref(a)], vec![]).unwrap();
    let items = q.iter_mut(&mut world);
    // composition {A} was created first: its rows come first, in row order
    assert_eq!(
        entity_indices(&items),
        vec![e1.index, e3.index, e2.index, e4.index]
    );
}

#[test]
fn rerun_without_changes_is_identical() {
    let mut world = World::new(1);
    let a = world.register_component(StorageType::Table);
    world.spawn(vec![a], vec![1]);
    world.spawn(vec![a], vec![2]);
    let mut q = DynamicQuery::new(&world, vec![FetchKind::Ref(a)], vec![]).unwrap();
    let first = q.iter_mut(&mut world);
    let second = q.iter_mut(&mut world);
    assert_eq!(entity_indices(&first), entity_indices(&second));
    assert_eq!(values_of(&first), values_of(&second));
}

#[test]
fn fields_can_be_registered_after_entities_exist() {
    let mut world = World::new(1);
    let a = world.register_component(StorageType::Table);
    let e1 = world.spawn(vec![a], vec![1]);
    let b = world.register_component(StorageType::SparseSet);
    let e2 = world.spawn(vec![a, b], vec![2, 3]);
    let mut q = DynamicQuery::new(
        &world,
        vec![FetchKind::Ref(a)],
        vec![FilterKind::Without(b)],
    )
    .unwrap();
    let items = q.iter_mut(&mut world);
    assert_eq!(entity_indices(&items), vec![e1.index]);
    let mut q2 = DynamicQuery::new(&world, vec![FetchKind::Ref(b)], vec![]).unwrap();
    let items2 = q2.iter_mut(&mut world);
    assert_eq!(entity_indices(&items2), vec![e2.index]);
}

#[test]
fn query_is_built_for_one_store() {
    let mut world = World::new(1);
    let other = World::new(2);
    let a = world.register_component(StorageType::Table);
    let q = DynamicQuery::new(&world, vec![FetchKind::Ref(a)], vec![]).unwrap();
    assert!(q.validate_world(&world));
    assert!(!q.validate_world(&other));
}

#[test]
fn write_handles_carry_the_tick_window() {
    let mut world = World::new(1);
    let a = world.register_component(StorageType::Table);
    world.spawn(vec![a], vec![5]);
    world.increment_change_tick();
    let mut q = DynamicQuery::new(&world, vec![FetchKind::RefMut(a)], vec![]).unwrap();
    let items = q.iter_mut(&mut world);
    assert_eq!(items.len(), 1);
    match items[0].items[0] {
        FetchResult::RefMut { value, last_change_tick, change_tick } => {
            assert_eq!(value, 5);
            assert_eq!(last_change_tick, 0);
            assert_eq!(change_tick, 2);
        }
        FetchResult::Ref { .. } => panic!("expected an exclusive handle"),
    }
}
