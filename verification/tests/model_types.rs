use litebrite::codec::status_from_snapshot_token;
use litebrite::ident::generate_id;
use litebrite::ItemType;
use litebrite::Status;

#[test]
fn item_type_from_str_valid() {
    assert_eq!("epic".parse::<ItemType>().unwrap(), ItemType::Epic);
    assert_eq!("feature".parse::<ItemType>().unwrap(), ItemType::Feature);
    assert_eq!("task".parse::<ItemType>().unwrap(), ItemType::Task);
}

#[test]
fn item_type_from_str_case_insensitive() {
    assert_eq!("EPIC".parse::<ItemType>().unwrap(), ItemType::Epic);
    assert_eq!("Feature".parse::<ItemType>().unwrap(), ItemType::Feature);
    assert_eq!("tAsK".parse::<ItemType>().unwrap(), ItemType::Task);
}

#[test]
fn item_type_from_str_invalid() {
    assert!("bug".parse::<ItemType>().is_err());
    assert!("".parse::<ItemType>().is_err());
}

#[test]
fn status_from_str_valid() {
    assert_eq!("open".parse::<Status>().unwrap(), Status::Open);
    assert_eq!("closed".parse::<Status>().unwrap(), Status::Closed);
}

#[test]
fn status_from_str_case_insensitive() {
    assert_eq!("OPEN".parse::<Status>().unwrap(), Status::Open);
    assert_eq!("Closed".parse::<Status>().unwrap(), Status::Closed);
}

#[test]
fn status_from_str_invalid() {
    assert!("done".parse::<Status>().is_err());
    assert!("".parse::<Status>().is_err());
    // Legacy statuses are not accepted as command input.
    assert!("in_progress".parse::<Status>().is_err());
    assert!("blocked".parse::<Status>().is_err());
    assert!("deferred".parse::<Status>().is_err());
}

#[test]
fn display_round_trip_item_type() {
    for variant in [ItemType::Epic, ItemType::Feature, ItemType::Task] {
        let s = variant.label();
        assert_eq!(s.parse::<ItemType>().unwrap(), variant);
    }
}

#[test]
fn display_round_trip_status() {
    for variant in [Status::Open, Status::Closed] {
        let s = variant.label();
        assert_eq!(s.parse::<Status>().unwrap(), variant);
    }
}

#[test]
fn legacy_status_deserializes_to_open() {
    // Legacy snapshot tokens normalize to the open state on read.
    assert_eq!(status_from_snapshot_token("in_progress"), Status::Open);
    assert_eq!(status_from_snapshot_token("blocked"), Status::Open);
    assert_eq!(status_from_snapshot_token("deferred"), Status::Open);
    assert_eq!(status_from_snapshot_token("closed"), Status::Closed);
    assert_eq!(status_from_snapshot_token("open"), Status::Open);
}

#[test]
fn id_format() {
    let id = generate_id(&"some title".to_string(), &Vec::new()).unwrap();
    assert!(id.starts_with("lb-"), "id should start with lb-: {id}");
    assert_eq!(id.len(), 7, "id should be 7 chars: {id}");
    let suffix = &id[3..];
    assert!(
        suffix.chars().all(|c| c.is_ascii_lowercase() || c.is_ascii_digit()),
        "suffix should be base36: {suffix}"
    );
}

#[test]
fn id_uniqueness() {
    let id1 = generate_id(&"title one".to_string(), &Vec::new()).unwrap();
    let id2 = generate_id(&"title two".to_string(), &Vec::new()).unwrap();
    assert_ne!(id1, id2);
}

#[test]
fn id_collision_avoidance() {
    let first = generate_id(&"test".to_string(), &Vec::new()).unwrap();
    let second = generate_id(&"test".to_string(), &vec![first.clone()]).unwrap();
    assert_ne!(first, second);
}

#[test]
fn id_empty_title() {
    let id = generate_id(&String::new(), &Vec::new()).unwrap();
    assert!(id.starts_with("lb-"));
    assert_eq!(id.len(), 7);
}
