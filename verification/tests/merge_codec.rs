use litebrite::codec::from_json;
use litebrite::codec::to_json;
use litebrite::merge::merge_stores;
use litebrite::ops::create_item;
use litebrite::Dep;
use litebrite::DepType;
use litebrite::Item;
use litebrite::ItemType;
use litebrite::Status;
use litebrite::Store;

fn insert_item(store: &mut Store, id: &str, title: &str, status: Status, priority: u8) {
    store.put_item(Item {
        id: id.to_string(),
        title: title.to_string(),
        description: None,
        item_type: ItemType::Task,
        status,
        priority,
        claimed_by: None,
        created_at: 7,
        updated_at: 7,
    });
}

// --- Snapshot text ---

#[test]
fn from_json_to_json_round_trip() {
    let mut store = Store::default();
    insert_item(&mut store, "lb-aaaa", "test", Status::Open, 1);
    let json = to_json(&store).unwrap();
    let restored = from_json(&json).unwrap();
    assert_eq!(restored.items.len(), 1);
    assert_eq!(restored.get_item(&"lb-aaaa".to_string()).unwrap().title, "test");
}

#[test]
fn from_json_invalid() {
    assert!(from_json("not json").is_err());
}

#[test]
fn store_serde_round_trip() {
    let mut store = Store::default();
    store.put_item(Item {
        id: "lb-abc1".to_string(),
        title: "Test item".to_string(),
        description: Some("A description".to_string()),
        item_type: ItemType::Task,
        status: Status::Open,
        priority: 1,
        claimed_by: None,
        created_at: 123,
        updated_at: 456,
    });
    store.deps.push(Dep {
        from_id: "lb-abc1".to_string(),
        to_id: "lb-xyz2".to_string(),
        dep_type: DepType::Parent,
    });

    let json = to_json(&store).unwrap();
    let restored = from_json(&json).unwrap();

    assert_eq!(restored.items.len(), 1);
    assert_eq!(restored.get_item(&"lb-abc1".to_string()).unwrap().title, "Test item");
    assert_eq!(restored.deps.len(), 1);
    assert_eq!(restored.deps[0].dep_type, DepType::Parent);
}

#[test]
fn item_description_none_skipped_in_json() {
    let mut store = Store::default();
    store.put_item(Item {
        id: "lb-test".to_string(),
        title: "No desc".to_string(),
        description: None,
        item_type: ItemType::Task,
        status: Status::Open,
        priority: 2,
        claimed_by: None,
        created_at: 0,
        updated_at: 0,
    });
    let json = to_json(&store).unwrap();
    assert!(!json.contains("description"));
    assert!(!json.contains("claimed_by"));
}

#[test]
fn claimed_by_round_trip() {
    let mut store = Store::default();
    store.put_item(Item {
        id: "lb-test".to_string(),
        title: "Claimed".to_string(),
        description: None,
        item_type: ItemType::Task,
        status: Status::Open,
        priority: 1,
        claimed_by: Some("alice".to_string()),
        created_at: 0,
        updated_at: 0,
    });
    let json = to_json(&store).unwrap();
    assert!(json.contains("claimed_by"));
    assert!(json.contains("alice"));
    let restored = from_json(&json).unwrap();
    assert_eq!(
        restored.get_item(&"lb-test".to_string()).unwrap().claimed_by.as_deref(),
        Some("alice")
    );
}

#[test]
fn round_trip_escapes_and_fields() {
    let mut store = Store::default();
    store.put_item(Item {
        id: "lb-q0".to_string(),
        title: "a \"quoted\" title\nwith\tescapes \\ done".to_string(),
        description: Some("second line".to_string()),
        item_type: ItemType::Feature,
        status: Status::Closed,
        priority: 255,
        claimed_by: Some("bob".to_string()),
        created_at: -5,
        updated_at: 9_000_000_000,
    });
    let json = to_json(&store).unwrap();
    let restored = from_json(&json).unwrap();
    let it = restored.get_item(&"lb-q0".to_string()).unwrap();
    assert_eq!(it.title, "a \"quoted\" title\nwith\tescapes \\ done");
    assert_eq!(it.description.as_deref(), Some("second line"));
    assert_eq!(it.item_type, ItemType::Feature);
    assert_eq!(it.status, Status::Closed);
    assert_eq!(it.priority, 255);
    assert_eq!(it.claimed_by.as_deref(), Some("bob"));
    assert_eq!(it.created_at, -5);
    assert_eq!(it.updated_at, 9_000_000_000);
}

#[test]
fn round_trip_empty_store() {
    let store = Store::default();
    let json = to_json(&store).unwrap();
    let restored = from_json(&json).unwrap();
    assert!(restored.items.is_empty());
    assert!(restored.deps.is_empty());
}

// --- Merge ---

#[test]
fn merge_add_on_both_sides() {
    let base = Store::default();
    let mut ours = Store::default();
    insert_item(&mut ours, "lb-aaaa", "ours", Status::Open, 1);
    let mut theirs = Store::default();
    insert_item(&mut theirs, "lb-bbbb", "theirs", Status::Open, 1);

    let merged = merge_stores(&base, &ours, &theirs).unwrap();
    assert_eq!(merged.items.len(), 2);
    assert!(merged.contains_id(&"lb-aaaa".to_string()));
    assert!(merged.contains_id(&"lb-bbbb".to_string()));
}

#[test]
fn merge_different_fields_changed() {
    let mut base = Store::default();
    base.put_item(Item {
        id: "lb-aaaa".to_string(),
        title: "original".to_string(),
        description: None,
        item_type: ItemType::Task,
        status: Status::Open,
        priority: 2,
        claimed_by: None,
        created_at: 1,
        updated_at: 1,
    });

    let mut ours = base.clone();
    let mut edited = ours.get_item(&"lb-aaaa".to_string()).unwrap().clone();
    edited.title = "our title".to_string();
    ours.put_item(edited);

    let mut theirs = base.clone();
    let mut edited = theirs.get_item(&"lb-aaaa".to_string()).unwrap().clone();
    edited.priority = 0;
    theirs.put_item(edited);

    let merged = merge_stores(&base, &ours, &theirs).unwrap();
    let item = merged.get_item(&"lb-aaaa".to_string()).unwrap();
    assert_eq!(item.title, "our title");
    assert_eq!(item.priority, 0);
}

#[test]
fn merge_field_level_scenario() {
    // Base item with title "t" and priority 2; the local side changes only
    // the title to "t2"; the remote side changes only the priority to 0.
    // Each side's sole changed field wins.
    let mut base = Store::default();
    base.put_item(Item {
        id: "lb-0001".to_string(),
        title: "t".to_string(),
        description: None,
        item_type: ItemType::Task,
        status: Status::Open,
        priority: 2,
        claimed_by: None,
        created_at: 1,
        updated_at: 1,
    });
    let mut local = base.clone();
    let mut e = local.get_item(&"lb-0001".to_string()).unwrap().clone();
    e.title = "t2".to_string();
    local.put_item(e);
    let mut remote = base.clone();
    let mut e = remote.get_item(&"lb-0001".to_string()).unwrap().clone();
    e.priority = 0;
    remote.put_item(e);

    let merged = merge_stores(&base, &local, &remote).unwrap();
    let item = merged.get_item(&"lb-0001".to_string()).unwrap();
    assert_eq!(item.title, "t2");
    assert_eq!(item.priority, 0);
    assert_eq!(item.status, Status::Open);
    assert_eq!(item.item_type, ItemType::Task);
}

#[test]
fn merge_claimed_by_theirs_wins() {
    let mut base = Store::default();
    insert_item(&mut base, "lb-aaaa", "task", Status::Open, 2);

    let mut ours = base.clone();
    let mut e = ours.get_item(&"lb-aaaa".to_string()).unwrap().clone();
    e.claimed_by = Some("alice".to_string());
    ours.put_item(e);

    let mut theirs = base.clone();
    let mut e = theirs.get_item(&"lb-aaaa".to_string()).unwrap().clone();
    e.claimed_by = Some("bob".to_string());
    theirs.put_item(e);

    let merged = merge_stores(&base, &ours, &theirs).unwrap();
    assert_eq!(
        merged.get_item(&"lb-aaaa".to_string()).unwrap().claimed_by.as_deref(),
        Some("bob")
    );
}

#[test]
fn merge_deletion_honored() {
    let mut base = Store::default();
    insert_item(&mut base, "lb-aaaa", "to delete", Status::Open, 1);
    insert_item(&mut base, "lb-bbbb", "to keep", Status::Open, 1);

    let mut ours = base.clone();
    litebrite::ops::delete_item(&mut ours, &"lb-aaaa".to_string()).unwrap();

    let theirs = base.clone();

    let merged = merge_stores(&base, &ours, &theirs).unwrap();
    assert!(!merged.contains_id(&"lb-aaaa".to_string()));
    assert!(merged.contains_id(&"lb-bbbb".to_string()));
}

#[test]
fn merge_deps_union() {
    let mut base = Store::default();
    insert_item(&mut base, "lb-aaaa", "a", Status::Open, 1);
    insert_item(&mut base, "lb-bbbb", "b", Status::Open, 1);
    insert_item(&mut base, "lb-cccc", "c", Status::Open, 1);

    let mut ours = base.clone();
    ours.deps.push(Dep {
        from_id: "lb-aaaa".to_string(),
        to_id: "lb-bbbb".to_string(),
        dep_type: DepType::Blocks,
    });

    let mut theirs = base.clone();
    theirs.deps.push(Dep {
        from_id: "lb-bbbb".to_string(),
        to_id: "lb-cccc".to_string(),
        dep_type: DepType::Blocks,
    });

    let merged = merge_stores(&base, &ours, &theirs).unwrap();
    assert_eq!(merged.deps.len(), 2);
}

#[test]
fn merge_dep_removal_honored() {
    let mut base = Store::default();
    insert_item(&mut base, "lb-aaaa", "a", Status::Open, 1);
    insert_item(&mut base, "lb-bbbb", "b", Status::Open, 1);
    base.deps.push(Dep {
        from_id: "lb-aaaa".to_string(),
        to_id: "lb-bbbb".to_string(),
        dep_type: DepType::Blocks,
    });

    let ours = base.clone();
    let mut theirs = base.clone();
    theirs.deps.clear();

    let merged = merge_stores(&base, &ours, &theirs).unwrap();
    assert!(merged.deps.is_empty(), "an edge removed by one side must stay removed");
}

#[test]
fn merge_with_itself_changes_nothing() {
    let mut base = Store::default();
    insert_item(&mut base, "lb-aaaa", "a", Status::Open, 1);
    let mut s = base.clone();
    insert_item(&mut s, "lb-bbbb", "b", Status::Closed, 3);
    s.deps.push(Dep {
        from_id: "lb-aaaa".to_string(),
        to_id: "lb-bbbb".to_string(),
        dep_type: DepType::Blocks,
    });

    let merged = merge_stores(&base, &s, &s).unwrap();
    assert_eq!(merged.items.len(), s.items.len());
    for it in &s.items {
        let m = merged.get_item(&it.id).unwrap();
        assert_eq!(m.title, it.title);
        assert_eq!(m.status, it.status);
        assert_eq!(m.priority, it.priority);
        assert_eq!(m.updated_at, it.updated_at);
    }
    assert_eq!(merged.deps.len(), s.deps.len());
    assert_eq!(merged.deps[0].from_id, "lb-aaaa");
    assert_eq!(merged.deps[0].to_id, "lb-bbbb");
}

#[test]
fn create_item_err_on_ambiguous_parent() {
    let mut store = Store::default();
    insert_item(&mut store, "lb-ab01", "A", Status::Open, 1);
    insert_item(&mut store, "lb-ab02", "B", Status::Open, 1);
    let err = create_item(
        &mut store,
        "child".to_string(),
        ItemType::Task,
        2,
        None,
        Some("lb-ab".to_string()),
    )
    .unwrap_err();
    assert!(matches!(err, litebrite::TrackError::AmbiguousPrefix(_, _)), "{:?}", err);
}

#[test]
fn round_trip_keeps_unicode_text() {
    let mut store = Store::default();
    store.put_item(Item {
        id: "lb-u1".to_string(),
        title: "Ünïcøde — täsk ✓".to_string(),
        description: Some("línea número dos".to_string()),
        item_type: ItemType::Task,
        status: Status::Open,
        priority: 3,
        claimed_by: None,
        created_at: 42,
        updated_at: 42,
    });
    let json = to_json(&store).unwrap();
    let restored = from_json(&json).unwrap();
    let it = restored.get_item(&"lb-u1".to_string()).unwrap();
    assert_eq!(it.title, "Ünïcøde — täsk ✓");
    assert_eq!(it.description.as_deref(), Some("línea número dos"));
}

#[test]
fn read_accepts_calendar_timestamps() {
    // Snapshots written with calendar-text timestamps are read back as
    // milliseconds since the epoch.
    let json = r#"{"items":{"lb-t1":{"id":"lb-t1","title":"old style","item_type":"task",
        "status":"open","priority":2,
        "created_at":"1970-01-01T00:00:01+00:00",
        "updated_at":"1970-01-01T00:00:02.500+00:00"}},"deps":[]}"#;
    let restored = from_json(json).unwrap();
    let it = restored.get_item(&"lb-t1".to_string()).unwrap();
    assert_eq!(it.created_at, 1_000);
    assert_eq!(it.updated_at, 2_500);
}

#[test]
fn read_rejects_key_id_mismatch() {
    let json = r#"{"items":{"lb-aaaa":{"id":"lb-bbbb","title":"x","item_type":"task",
        "status":"open","priority":2,"created_at":0,"updated_at":0}},"deps":[]}"#;
    assert!(from_json(json).is_err());
}

#[test]
fn set_parent_terminates_on_malformed_parent_cycle() {
    // A document whose parent edges already form a cycle (built directly,
    // never producible by the engine): the ancestor walk still terminates
    // and the call still decides.
    let mut store = Store::default();
    insert_item(&mut store, "lb-aaaa", "a", Status::Open, 1);
    insert_item(&mut store, "lb-bbbb", "b", Status::Open, 1);
    insert_item(&mut store, "lb-cccc", "c", Status::Open, 1);
    store.deps.push(Dep {
        from_id: "lb-aaaa".to_string(),
        to_id: "lb-bbbb".to_string(),
        dep_type: DepType::Parent,
    });
    store.deps.push(Dep {
        from_id: "lb-bbbb".to_string(),
        to_id: "lb-aaaa".to_string(),
        dep_type: DepType::Parent,
    });
    // The pre-existing two-cycle does not involve lb-cccc, so parenting
    // lb-cccc under lb-aaaa succeeds.
    litebrite::ops::set_parent(&mut store, &"lb-cccc".to_string(), &"lb-aaaa".to_string())
        .unwrap();
    // And parenting lb-aaaa under lb-bbbb is a detected cycle.
    let err = litebrite::ops::set_parent(
        &mut store,
        &"lb-aaaa".to_string(),
        &"lb-bbbb".to_string(),
    )
    .unwrap_err();
    assert!(err.message().contains("cycle"), "{:?}", err);
}
