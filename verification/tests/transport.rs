use litebrite::ops::create_item;
use litebrite::repo::branch_exists;
use litebrite::repo::has_remote;
use litebrite::repo::init_branch;
use litebrite::repo::is_ancestor;
use litebrite::repo::local_ref;
use litebrite::repo::merge_base;
use litebrite::repo::push;
use litebrite::repo::read_store;
use litebrite::repo::remote_branch_exists;
use litebrite::repo::write_store;
use litebrite::repo::Odb;
use litebrite::repo::Origin;
use litebrite::repo::Repo;
use litebrite::sync::claim;
use litebrite::sync::load;
use litebrite::sync::save;
use litebrite::sync::sync;
use litebrite::sync::unclaim;
use litebrite::sync::SyncOutcome;
use litebrite::ItemType;
use litebrite::Status;
use litebrite::Store;
use litebrite::TrackError;

fn fresh_repo(actor: &str) -> Repo {
    Repo { local: None, tracking: None, actor: Some(actor.to_string()) }
}

fn seeded(actor: &str, configured: bool) -> (Odb, Repo, Origin, String) {
    let mut odb = Odb::new();
    let mut repo = fresh_repo(actor);
    let mut origin = Origin { configured, head: None };
    let mut store = Store::new();
    let id = create_item(&mut store, "shared work".to_string(), ItemType::Task, 1, None, None)
        .unwrap();
    init_branch(&mut odb, &mut repo, &mut origin, &store).unwrap();
    (odb, repo, origin, id)
}

#[test]
fn init_sets_up_local_branch() {
    let (_odb, repo, _origin, _id) = seeded("alice", false);
    assert!(branch_exists(&repo));
    assert!(local_ref(&repo).is_ok());
}

#[test]
fn init_twice_fails() {
    let (mut odb, mut repo, mut origin, _id) = seeded("alice", false);
    let err = init_branch(&mut odb, &mut repo, &mut origin, &Store::new()).unwrap_err();
    assert!(matches!(err, TrackError::AlreadyInitialized), "{:?}", err);
}

#[test]
fn init_publishes_when_remote_configured() {
    let (_odb, _repo, origin, _id) = seeded("alice", true);
    assert!(origin.head.is_some(), "a configured remote receives the branch");
}

#[test]
fn read_back_what_was_written() {
    let (mut odb, mut repo, _origin, id) = seeded("alice", false);
    let mut s = load(&odb, &repo).unwrap();
    let resolved = litebrite::ops::resolve_id(&s, &id).unwrap();
    assert_eq!(resolved, id);
    let second = create_item(&mut s, "more".to_string(), ItemType::Task, 2, None, None).unwrap();
    save(&mut odb, &mut repo, &s, "add another item").unwrap();
    let back = read_store(&odb, &repo).unwrap();
    assert!(back.contains_id(&second));
    assert!(back.contains_id(&id));
}

#[test]
fn ancestry_follows_commits() {
    let (mut odb, mut repo, _origin, _id) = seeded("alice", false);
    let first = local_ref(&repo).unwrap();
    let s = load(&odb, &repo).unwrap();
    write_store(&mut odb, &mut repo, &s, "same content again").unwrap();
    let second = local_ref(&repo).unwrap();
    assert!(is_ancestor(&odb, first, second));
    assert!(!is_ancestor(&odb, second, first));
    let r2 = Repo { local: Some(second), tracking: Some(first), actor: None };
    let mb = merge_base(&odb, &r2).unwrap();
    assert_eq!(mb, Some(first));
}

#[test]
fn push_rejected_when_remote_moved() {
    let (mut odb, mut repo_a, mut origin, _id) = seeded("alice", true);
    // A second actor adopts the published branch.
    let mut repo_b = fresh_repo("bob");
    init_branch(&mut odb, &mut repo_b, &mut origin, &Store::new()).unwrap();

    // Both write on top of the same head; the second publish must lose.
    let s_a = load(&odb, &repo_a).unwrap();
    write_store(&mut odb, &mut repo_a, &s_a, "a's edit").unwrap();
    push(&repo_a, &mut origin, &odb).unwrap();

    let s_b = load(&odb, &repo_b).unwrap();
    write_store(&mut odb, &mut repo_b, &s_b, "b's edit").unwrap();
    let err = push(&repo_b, &mut origin, &odb).unwrap_err();
    assert!(matches!(err, TrackError::TransportRejected), "{:?}", err);
}

#[test]
fn sync_without_remote_fails() {
    let (mut odb, mut repo, mut origin, _id) = seeded("alice", false);
    let err = sync(&mut odb, &mut repo, &mut origin).unwrap_err();
    assert!(matches!(err, TrackError::TransportUnavailable), "{:?}", err);
    assert!(!has_remote(&origin));
}

#[test]
fn sync_in_sync_and_fast_forward() {
    let (mut odb, mut repo_a, mut origin, _id) = seeded("alice", true);
    assert_eq!(sync(&mut odb, &mut repo_a, &mut origin).unwrap(), SyncOutcome::InSync);

    // A second actor publishes an edit; the first then fast-forwards.
    let mut repo_b = fresh_repo("bob");
    init_branch(&mut odb, &mut repo_b, &mut origin, &Store::new()).unwrap();
    let mut s_b = load(&odb, &repo_b).unwrap();
    create_item(&mut s_b, "from bob".to_string(), ItemType::Task, 2, None, None).unwrap();
    save(&mut odb, &mut repo_b, &s_b, "bob adds an item").unwrap();
    assert!(remote_branch_exists(&repo_b));
    push(&repo_b, &mut origin, &odb).unwrap();

    assert_eq!(sync(&mut odb, &mut repo_a, &mut origin).unwrap(), SyncOutcome::FastForwarded);
    let synced = load(&odb, &repo_a).unwrap();
    assert_eq!(synced.items.len(), 2);
}

#[test]
fn sync_merges_diverged_histories() {
    let (mut odb, mut repo_a, mut origin, _id) = seeded("alice", true);
    let mut repo_b = fresh_repo("bob");
    init_branch(&mut odb, &mut repo_b, &mut origin, &Store::new()).unwrap();

    // Both sides add their own item from the same base.
    let mut s_a = load(&odb, &repo_a).unwrap();
    let a_item = create_item(&mut s_a, "a's work".to_string(), ItemType::Task, 1, None, None)
        .unwrap();
    save(&mut odb, &mut repo_a, &s_a, "a's work").unwrap();
    push(&repo_a, &mut origin, &odb).unwrap();

    let mut s_b = load(&odb, &repo_b).unwrap();
    let b_item = create_item(&mut s_b, "b's work".to_string(), ItemType::Task, 2, None, None)
        .unwrap();
    save(&mut odb, &mut repo_b, &s_b, "b's work").unwrap();

    assert_eq!(sync(&mut odb, &mut repo_b, &mut origin).unwrap(), SyncOutcome::Merged);
    let merged = load(&odb, &repo_b).unwrap();
    assert!(merged.contains_id(&a_item));
    assert!(merged.contains_id(&b_item));
    assert_eq!(origin.head, repo_b.local, "the merge was published");
}

#[test]
fn claim_no_remote() {
    let (mut odb, mut repo, mut origin, id) = seeded("alice", false);
    let claimed = claim(&mut odb, &mut repo, &mut origin, &id).unwrap();
    assert_eq!(claimed, id);
    let s = load(&odb, &repo).unwrap();
    assert_eq!(s.get_item(&id).unwrap().claimed_by.as_deref(), Some("alice"));
}

#[test]
fn unclaim_no_remote() {
    let (mut odb, mut repo, mut origin, id) = seeded("alice", false);
    claim(&mut odb, &mut repo, &mut origin, &id).unwrap();
    unclaim(&mut odb, &mut repo, &mut origin, &id).unwrap();
    let s = load(&odb, &repo).unwrap();
    assert!(s.get_item(&id).unwrap().claimed_by.is_none());
}

#[test]
fn unclaim_unclaimed_fails() {
    let (mut odb, mut repo, mut origin, id) = seeded("alice", false);
    let err = unclaim(&mut odb, &mut repo, &mut origin, &id).unwrap_err();
    assert!(matches!(err, TrackError::NotClaimed), "{:?}", err);
}

#[test]
fn claim_claimed_item_fails() {
    let (mut odb, mut repo, mut origin, id) = seeded("alice", false);
    claim(&mut odb, &mut repo, &mut origin, &id).unwrap();
    let err = claim(&mut odb, &mut repo, &mut origin, &id).unwrap_err();
    match err {
        TrackError::AlreadyClaimed(w) => assert_eq!(w, "alice"),
        other => panic!("expected a claim conflict: {:?}", other),
    }
}

#[test]
fn claim_closed_item_fails() {
    let (mut odb, mut repo, mut origin, id) = seeded("alice", false);
    let mut s = load(&odb, &repo).unwrap();
    litebrite::ops::close_item(&mut s, &id).unwrap();
    save(&mut odb, &mut repo, &s, "close it").unwrap();
    let err = claim(&mut odb, &mut repo, &mut origin, &id).unwrap_err();
    assert!(err.message().contains("closed"), "{:?}", err);
}

#[test]
fn claim_race_exactly_one_wins() {
    // Two actors share a transport and race to claim the same unclaimed,
    // open item: exactly one succeeds with its claimant recorded, and the
    // other fails with the winner's name.
    let (mut odb, mut repo_a, mut origin, id) = seeded("alice", true);
    let mut repo_b = fresh_repo("bob");
    init_branch(&mut odb, &mut repo_b, &mut origin, &Store::new()).unwrap();

    let first = claim(&mut odb, &mut repo_a, &mut origin, &id);
    assert_eq!(first.unwrap(), id);
    let head = origin.head.unwrap();
    let published = litebrite::repo::read_store_from_ref(&odb, head).unwrap();
    assert_eq!(published.get_item(&id).unwrap().claimed_by.as_deref(), Some("alice"));

    let second = claim(&mut odb, &mut repo_b, &mut origin, &id);
    match second.unwrap_err() {
        TrackError::AlreadyClaimed(w) => assert_eq!(w, "alice"),
        other => panic!("expected a claim conflict: {:?}", other),
    }
    // The winner's claim still stands at the shared head.
    let head = origin.head.unwrap();
    let published = litebrite::repo::read_store_from_ref(&odb, head).unwrap();
    assert_eq!(published.get_item(&id).unwrap().claimed_by.as_deref(), Some("alice"));
}

#[test]
fn claim_retry_merges_unrelated_edit() {
    // A concurrent publish that is not a claim conflict: the claim is
    // retried once, merged with the unrelated edit, and published.
    let (mut odb, mut repo_a, mut origin, id) = seeded("alice", true);
    let mut repo_b = fresh_repo("bob");
    init_branch(&mut odb, &mut repo_b, &mut origin, &Store::new()).unwrap();

    // Bob publishes an unrelated new item first.
    let mut s_b = load(&odb, &repo_b).unwrap();
    let b_item = create_item(&mut s_b, "unrelated".to_string(), ItemType::Task, 3, None, None)
        .unwrap();
    save(&mut odb, &mut repo_b, &s_b, "unrelated edit").unwrap();
    push(&repo_b, &mut origin, &odb).unwrap();

    // Alice, still on the old head, claims: her publish is first rejected,
    // then merged and retried.
    let claimed = claim(&mut odb, &mut repo_a, &mut origin, &id).unwrap();
    assert_eq!(claimed, id);
    let head = origin.head.unwrap();
    let published = litebrite::repo::read_store_from_ref(&odb, head).unwrap();
    assert_eq!(published.get_item(&id).unwrap().claimed_by.as_deref(), Some("alice"));
    assert!(published.contains_id(&b_item), "the unrelated edit survived the merge");
    assert_eq!(published.get_item(&id).unwrap().status, Status::Open);
}

#[test]
fn read_store_before_init_fails() {
    let odb = Odb::new();
    let repo = fresh_repo("alice");
    let err = read_store(&odb, &repo).unwrap_err();
    assert!(matches!(err, TrackError::IOFailure), "{:?}", err);
}

#[test]
fn sync_ahead_publishes_without_merging() {
    let (mut odb, mut repo, mut origin, _id) = seeded("alice", true);
    // The local head moves strictly ahead of the published one.
    let mut s = load(&odb, &repo).unwrap();
    create_item(&mut s, "ahead work".to_string(), ItemType::Task, 2, None, None).unwrap();
    save(&mut odb, &mut repo, &s, "local edit").unwrap();

    let commits_before = odb.commits.len();
    assert_eq!(sync(&mut odb, &mut repo, &mut origin).unwrap(), SyncOutcome::Published);
    assert_eq!(odb.commits.len(), commits_before, "no merge snapshot is written");
    assert_eq!(origin.head, repo.local, "the local head was published as-is");
}
