use litebrite::ops::add_blocking_dep;
use litebrite::ops::close_item;
use litebrite::ops::create_item;
use litebrite::ops::delete_item;
use litebrite::ops::get_blockers;
use litebrite::ops::get_blocking;
use litebrite::ops::get_children;
use litebrite::ops::get_parent;
use litebrite::ops::ready_items;
use litebrite::ops::remove_dep;
use litebrite::ops::resolve_id;
use litebrite::ops::root_items;
use litebrite::ops::set_parent;
use litebrite::ops::should_show;
use litebrite::Dep;
use litebrite::DepType;
use litebrite::Item;
use litebrite::ItemType;
use litebrite::Status;
use litebrite::Store;
use litebrite::TrackError;

/// Builds a store with one task per title, returning the generated ids.
fn make_store(titles: &[&str]) -> (Store, Vec<String>) {
    let mut store = Store::default();
    let mut ids = Vec::new();
    for title in titles {
        let id = create_item(&mut store, title.to_string(), ItemType::Task, 2, None, None)
            .unwrap();
        ids.push(id);
    }
    (store, ids)
}

fn insert_item(store: &mut Store, id: &str, title: &str, status: Status, priority: u8) {
    store.put_item(Item {
        id: id.to_string(),
        title: title.to_string(),
        description: None,
        item_type: ItemType::Task,
        status,
        priority,
        claimed_by: None,
        created_at: 0,
        updated_at: 0,
    });
}

// --- Prefix resolution ---

#[test]
fn resolve_exact_match() {
    let (store, ids) = make_store(&["alpha"]);
    assert_eq!(resolve_id(&store, &ids[0]).unwrap(), ids[0]);
}

#[test]
fn resolve_unique_prefix() {
    let mut store = Store::default();
    insert_item(&mut store, "lb-aaaa", "A", Status::Open, 1);
    insert_item(&mut store, "lb-bbbb", "B", Status::Open, 1);
    assert_eq!(resolve_id(&store, &"lb-a".to_string()).unwrap(), "lb-aaaa");
}

#[test]
fn resolve_ambiguous_prefix() {
    let mut store = Store::default();
    insert_item(&mut store, "lb-ab01", "A", Status::Open, 1);
    insert_item(&mut store, "lb-ab02", "B", Status::Open, 1);
    let err = resolve_id(&store, &"lb-ab".to_string()).unwrap_err().message();
    assert!(err.contains("ambiguous"), "{err}");
}

#[test]
fn resolve_no_match() {
    let store = Store::default();
    let err = resolve_id(&store, &"lb-zzzz".to_string()).unwrap_err().message();
    assert!(err.contains("no item"), "{err}");
}

// --- CRUD ---

#[test]
fn create_item_basic() {
    let mut store = Store::default();
    let id = create_item(
        &mut store,
        "My task".to_string(),
        ItemType::Task,
        1,
        Some("desc".to_string()),
        None,
    )
    .unwrap();
    assert!(id.starts_with("lb-"));
    let item = store.get_item(&id).unwrap();
    assert_eq!(item.title, "My task");
    assert_eq!(item.item_type, ItemType::Task);
    assert_eq!(item.status, Status::Open);
    assert_eq!(item.priority, 1);
    assert_eq!(item.description.as_deref(), Some("desc"));
    assert!(item.claimed_by.is_none());
}

#[test]
fn create_item_with_parent() {
    let (mut store, ids) = make_store(&["parent"]);
    let child_id = create_item(
        &mut store,
        "child".to_string(),
        ItemType::Task,
        2,
        None,
        Some(ids[0].clone()),
    )
    .unwrap();
    assert_eq!(get_parent(&store, &child_id), Some(ids[0].clone()));
}

#[test]
fn create_item_nonexistent_parent() {
    let mut store = Store::default();
    let err = create_item(
        &mut store,
        "orphan".to_string(),
        ItemType::Task,
        2,
        None,
        Some("lb-nope".to_string()),
    )
    .unwrap_err()
    .message();
    assert!(err.contains("no item"), "{err}");
}

#[test]
fn delete_item_basic() {
    let (mut store, ids) = make_store(&["doomed"]);
    delete_item(&mut store, &ids[0]).unwrap();
    assert!(store.items.is_empty());
}

#[test]
fn delete_item_removes_deps() {
    let (mut store, ids) = make_store(&["a", "b"]);
    add_blocking_dep(&mut store, &ids[0], &ids[1]).unwrap();
    assert_eq!(store.deps.len(), 1);
    delete_item(&mut store, &ids[0]).unwrap();
    assert!(store.deps.is_empty());
}

#[test]
fn delete_nonexistent() {
    let store = &mut Store::default();
    assert!(delete_item(store, &"lb-nope".to_string()).is_err());
}

// --- Parent/child ---

#[test]
fn set_parent_basic() {
    let (mut store, ids) = make_store(&["parent", "child"]);
    set_parent(&mut store, &ids[1], &ids[0]).unwrap();
    assert_eq!(get_parent(&store, &ids[1]), Some(ids[0].clone()));
}

#[test]
fn set_parent_replaces_existing() {
    let (mut store, ids) = make_store(&["p1", "p2", "child"]);
    set_parent(&mut store, &ids[2], &ids[0]).unwrap();
    assert_eq!(get_parent(&store, &ids[2]), Some(ids[0].clone()));

    set_parent(&mut store, &ids[2], &ids[1]).unwrap();
    assert_eq!(get_parent(&store, &ids[2]), Some(ids[1].clone()));
    // Only one parent edge should remain for the child.
    let parent_deps: Vec<&Dep> = store
        .deps
        .iter()
        .filter(|d| d.from_id == ids[2] && d.dep_type == DepType::Parent)
        .collect();
    assert_eq!(parent_deps.len(), 1);
}

#[test]
fn set_parent_self_reference() {
    let (mut store, ids) = make_store(&["lonely"]);
    let err = set_parent(&mut store, &ids[0], &ids[0]).unwrap_err();
    assert!(matches!(err, TrackError::SelfReference), "{:?}", err);
}

#[test]
fn set_parent_direct_cycle() {
    let (mut store, ids) = make_store(&["a", "b"]);
    set_parent(&mut store, &ids[1], &ids[0]).unwrap();
    let err = set_parent(&mut store, &ids[0], &ids[1]).unwrap_err().message();
    assert!(err.contains("cycle"), "{err}");
}

#[test]
fn set_parent_transitive_cycle() {
    let (mut store, ids) = make_store(&["a", "b", "c"]);
    set_parent(&mut store, &ids[1], &ids[0]).unwrap();
    set_parent(&mut store, &ids[2], &ids[1]).unwrap();
    let err = set_parent(&mut store, &ids[0], &ids[2]).unwrap_err().message();
    assert!(err.contains("cycle"), "{err}");
}

#[test]
fn get_parent_none() {
    let (store, ids) = make_store(&["orphan"]);
    assert_eq!(get_parent(&store, &ids[0]), None);
}

#[test]
fn get_children_basic() {
    let (mut store, ids) = make_store(&["parent", "c1", "c2"]);
    set_parent(&mut store, &ids[1], &ids[0]).unwrap();
    set_parent(&mut store, &ids[2], &ids[0]).unwrap();
    let mut children = get_children(&store, &ids[0]);
    children.sort();
    let mut expected = vec![ids[1].clone(), ids[2].clone()];
    expected.sort();
    assert_eq!(children, expected);
}

// --- Blocking deps ---

#[test]
fn add_blocking_dep_basic() {
    let (mut store, ids) = make_store(&["blocker", "blocked"]);
    add_blocking_dep(&mut store, &ids[0], &ids[1]).unwrap();
    assert_eq!(get_blockers(&store, &ids[1]), vec![ids[0].clone()]);
    assert_eq!(get_blocking(&store, &ids[0]), vec![ids[1].clone()]);
}

#[test]
fn add_blocking_dep_self_block() {
    let (mut store, ids) = make_store(&["self-blocker"]);
    let err = add_blocking_dep(&mut store, &ids[0], &ids[0]).unwrap_err().message();
    assert!(err.contains("itself"), "{err}");
}

#[test]
fn add_blocking_dep_duplicate() {
    let (mut store, ids) = make_store(&["a", "b"]);
    add_blocking_dep(&mut store, &ids[0], &ids[1]).unwrap();
    let err = add_blocking_dep(&mut store, &ids[0], &ids[1]).unwrap_err().message();
    assert!(err.contains("already exists"), "{err}");
}

#[test]
fn remove_dep_basic() {
    let (mut store, ids) = make_store(&["a", "b"]);
    add_blocking_dep(&mut store, &ids[0], &ids[1]).unwrap();
    remove_dep(&mut store, &ids[0], &ids[1]).unwrap();
    assert!(get_blockers(&store, &ids[1]).is_empty());
}

#[test]
fn remove_dep_nonexistent() {
    let (mut store, ids) = make_store(&["a", "b"]);
    let err = remove_dep(&mut store, &ids[0], &ids[1]).unwrap_err().message();
    assert!(err.contains("no dependency"), "{err}");
}

#[test]
fn get_blockers_and_blocking() {
    let (mut store, ids) = make_store(&["a", "b", "c"]);
    add_blocking_dep(&mut store, &ids[0], &ids[2]).unwrap();
    add_blocking_dep(&mut store, &ids[1], &ids[2]).unwrap();

    let mut blockers = get_blockers(&store, &ids[2]);
    blockers.sort();
    let mut expected = vec![ids[0].clone(), ids[1].clone()];
    expected.sort();
    assert_eq!(blockers, expected);

    assert_eq!(get_blocking(&store, &ids[0]), vec![ids[2].clone()]);
}

// --- Ready items ---

#[test]
fn ready_open_no_blockers() {
    let mut store = Store::default();
    insert_item(&mut store, "lb-aaaa", "ready", Status::Open, 1);
    let ready = ready_items(&store);
    assert_eq!(ready.len(), 1);
    assert_eq!(ready[0].id, "lb-aaaa");
}

#[test]
fn ready_open_with_unclosed_blocker() {
    let mut store = Store::default();
    insert_item(&mut store, "lb-aaaa", "blocker", Status::Open, 1);
    insert_item(&mut store, "lb-bbbb", "blocked", Status::Open, 1);
    store.deps.push(Dep {
        from_id: "lb-aaaa".to_string(),
        to_id: "lb-bbbb".to_string(),
        dep_type: DepType::Blocks,
    });
    let ready = ready_items(&store);
    assert_eq!(ready.len(), 1);
    assert_eq!(ready[0].id, "lb-aaaa");
}

#[test]
fn ready_open_with_closed_blocker() {
    let mut store = Store::default();
    insert_item(&mut store, "lb-aaaa", "blocker", Status::Closed, 1);
    insert_item(&mut store, "lb-bbbb", "blocked", Status::Open, 1);
    store.deps.push(Dep {
        from_id: "lb-aaaa".to_string(),
        to_id: "lb-bbbb".to_string(),
        dep_type: DepType::Blocks,
    });
    let ready = ready_items(&store);
    // lb-bbbb is ready (its blocker is closed); lb-aaaa is closed.
    assert_eq!(ready.len(), 1);
    assert_eq!(ready[0].id, "lb-bbbb");
}

#[test]
fn ready_closed_never_ready() {
    let mut store = Store::default();
    insert_item(&mut store, "lb-aaaa", "done", Status::Closed, 1);
    assert!(ready_items(&store).is_empty());
}

#[test]
fn ready_sorted_by_priority() {
    let mut store = Store::default();
    insert_item(&mut store, "lb-cccc", "low", Status::Open, 3);
    insert_item(&mut store, "lb-aaaa", "high", Status::Open, 0);
    insert_item(&mut store, "lb-bbbb", "mid", Status::Open, 1);
    let ready = ready_items(&store);
    let priorities: Vec<u8> = ready.iter().map(|i| i.priority).collect();
    assert_eq!(priorities, vec![0, 1, 3]);
}

#[test]
fn ready_excludes_claimed() {
    let mut store = Store::default();
    insert_item(&mut store, "lb-aaaa", "unclaimed", Status::Open, 1);
    insert_item(&mut store, "lb-bbbb", "claimed", Status::Open, 1);
    let mut claimed = store.get_item(&"lb-bbbb".to_string()).unwrap().clone();
    claimed.claimed_by = Some("alice".to_string());
    store.put_item(claimed);
    let ready = ready_items(&store);
    assert_eq!(ready.len(), 1);
    assert_eq!(ready[0].id, "lb-aaaa");
}

#[test]
fn ready_ties_break_by_id() {
    let mut store = Store::default();
    insert_item(&mut store, "lb-zzzz", "late", Status::Open, 1);
    insert_item(&mut store, "lb-aaaa", "early", Status::Open, 1);
    let ready = ready_items(&store);
    let ids: Vec<&str> = ready.iter().map(|i| i.id.as_str()).collect();
    assert_eq!(ids, vec!["lb-aaaa", "lb-zzzz"]);
}

// --- Root items ---

#[test]
fn root_items_no_parent() {
    let (store, ids) = make_store(&["root1", "root2"]);
    let roots: Vec<String> = root_items(&store).iter().map(|i| i.id.clone()).collect();
    assert!(roots.contains(&ids[0]));
    assert!(roots.contains(&ids[1]));
}

#[test]
fn root_items_excludes_children() {
    let (mut store, ids) = make_store(&["parent", "child"]);
    set_parent(&mut store, &ids[1], &ids[0]).unwrap();
    let roots: Vec<String> = root_items(&store).iter().map(|i| i.id.clone()).collect();
    assert!(roots.contains(&ids[0]));
    assert!(!roots.contains(&ids[1]));
}

// --- Listing filters ---

fn make_item(status: Status, item_type: ItemType) -> Item {
    Item {
        id: "lb-test".to_string(),
        title: "test".to_string(),
        description: None,
        item_type,
        status,
        priority: 2,
        claimed_by: None,
        created_at: 0,
        updated_at: 0,
    }
}

#[test]
fn hides_closed_by_default() {
    let item = make_item(Status::Closed, ItemType::Task);
    assert!(!should_show(&item, false, None, None));
}

#[test]
fn shows_closed_with_all() {
    let item = make_item(Status::Closed, ItemType::Task);
    assert!(should_show(&item, true, None, None));
}

#[test]
fn filters_by_item_type() {
    let item = make_item(Status::Open, ItemType::Epic);
    assert!(!should_show(&item, false, Some(ItemType::Task), None));
    assert!(should_show(&item, false, Some(ItemType::Epic), None));
}

#[test]
fn filters_by_status() {
    let item = make_item(Status::Open, ItemType::Task);
    assert!(should_show(&item, false, None, Some(Status::Open)));
    assert!(!should_show(&item, false, None, Some(Status::Closed)));
}

#[test]
fn status_filter_overrides_closed_hiding() {
    let item = make_item(Status::Closed, ItemType::Task);
    assert!(should_show(&item, false, None, Some(Status::Closed)));
}

// --- Closing with children ---

#[test]
fn close_with_open_children_fails() {
    let mut store = Store::default();
    let epic = create_item(&mut store, "my-epic".to_string(), ItemType::Epic, 2, None, None)
        .unwrap();
    let c1 = create_item(
        &mut store,
        "child1".to_string(),
        ItemType::Task,
        2,
        None,
        Some(epic.clone()),
    )
    .unwrap();
    let c2 = create_item(
        &mut store,
        "child2".to_string(),
        ItemType::Task,
        2,
        None,
        Some(epic.clone()),
    )
    .unwrap();
    // Give the epic a claimant so the final close can be seen to clear it.
    let mut claimed = store.get_item(&epic).unwrap().clone();
    claimed.claimed_by = Some("alice".to_string());
    store.put_item(claimed);

    let err = close_item(&mut store, &epic).unwrap_err();
    assert!(matches!(err, TrackError::HasOpenChildren), "{:?}", err);
    assert!(err.message().contains("open children"));

    close_item(&mut store, &c1).unwrap();
    let err = close_item(&mut store, &epic).unwrap_err();
    assert!(matches!(err, TrackError::HasOpenChildren), "{:?}", err);

    close_item(&mut store, &c2).unwrap();
    close_item(&mut store, &epic).unwrap();
    let done = store.get_item(&epic).unwrap();
    assert_eq!(done.status, Status::Closed);
    assert!(done.claimed_by.is_none());
}
