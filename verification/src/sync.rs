//! The synchronization controller and the claim protocol: classifying how
//! the local and remote heads relate, fast-forwarding, publishing or merging,
//! and granting exclusive claims under optimistic concurrency with exactly
//! one retry on an unrelated concurrent edit.

use vstd::prelude::*;

use crate::errors::TrackError;
use crate::merge::merge_post;
use crate::merge::merge_stores;
use crate::model::has_id;
use crate::model::item_of;
use crate::model::store_wf;
use crate::model::ItemView;
use crate::model::Store;
use crate::model::StoreView;
use crate::ops::prefix_matches;
use crate::ops::resolve_id;
use crate::ops::resolved;
use crate::repo::common_ancestor;
use crate::repo::create_merge_commit;
use crate::repo::fast_forward;
use crate::repo::fetch;
use crate::repo::git_user_name;
use crate::repo::has_remote;
use crate::repo::is_ancestor;
use crate::repo::is_ancestor_spec;
use crate::repo::lemma_parent_edge_is_ancestor;
use crate::repo::local_ref;
use crate::repo::merge_base;
use crate::repo::odb_stores_wf;
use crate::repo::odb_wf;
use crate::repo::origin_wf;
use crate::repo::push;
use crate::repo::read_store;
use crate::repo::read_store_from_ref;
use crate::repo::remote_ref;
use crate::repo::repo_wf;
use crate::repo::write_store;
use crate::repo::CommitView;
use crate::repo::Odb;
use crate::repo::Origin;
use crate::repo::Repo;

verus! {

/// Loads the current local snapshot.
pub fn load(odb: &Odb, repo: &Repo) -> (r: Result<Store, TrackError>)
    requires
        repo_wf(repo, odb@),
        odb_stores_wf(odb@),
    ensures
        match r {
            Ok(s) => repo.local matches Some(h) && s@ == odb@[h as int].store && store_wf(s@),
            Err(TrackError::IOFailure) => repo.local is None,
            Err(_) => false,
        },
{
    read_store(odb, repo)
}

/// Saves a snapshot as a new commit on top of the local head.
pub fn save(odb: &mut Odb, repo: &mut Repo, store: &Store, message: &str) -> (r: Result<
    (),
    TrackError,
>)
    requires
        repo_wf(old(repo), old(odb)@),
        odb_wf(old(odb)@),
        odb_stores_wf(old(odb)@),
        store_wf(store@),
    ensures
        odb_wf(final(odb)@),
        odb_stores_wf(final(odb)@),
        repo_wf(final(repo), final(odb)@),
        match r {
            Ok(()) => ({
                &&& old(repo).local is Some
                &&& final(odb)@.len() == old(odb)@.len() + 1
                &&& forall|i: int| 0 <= i < old(odb)@.len() ==> final(odb)@[i] == old(odb)@[i]
                &&& final(odb)@.last().store == store@
                &&& final(odb)@.last().parents == seq![old(repo).local.unwrap() as int]
                &&& final(odb)@.len() - 1 <= usize::MAX
                &&& final(repo).local == Some((final(odb)@.len() - 1) as usize)
                &&& final(repo).tracking == old(repo).tracking
                &&& final(repo).actor == old(repo).actor
            }),
            Err(TrackError::IOFailure) => old(repo).local is None && final(odb)@ == old(odb)@,
            Err(_) => false,
        },
{
    write_store(odb, repo, store, message)
}

/// Checks the remote and adopts its state when that is a pure fast-forward:
/// reports `false` when no remote is configured (a local-only operation),
/// fetches and fast-forwards when the remote has the branch, and fails when
/// the remote exists but does not have the branch yet. A diverged local head
/// is never touched.
pub fn sync_from_remote(odb: &Odb, repo: &mut Repo, origin: &Origin) -> (r: Result<
    bool,
    TrackError,
>)
    requires
        odb_wf(odb@),
        repo_wf(old(repo), odb@),
        origin_wf(origin, odb@),
    ensures
        repo_wf(final(repo), odb@),
        final(repo).actor == old(repo).actor,
        match r {
            Ok(false) => !origin.configured && *final(repo) == *old(repo),
            Ok(true) => ({
                let h = origin.head.unwrap() as int;
                &&& origin.configured
                &&& origin.head is Some
                &&& final(repo).tracking == origin.head
                &&& ((old(repo).local matches Some(l) && (l as int == h || is_ancestor_spec(
                    odb@,
                    l as int,
                    h,
                ))) ==> final(repo).local == origin.head)
                &&& ((old(repo).local matches Some(l) && l as int != h && !is_ancestor_spec(
                    odb@,
                    l as int,
                    h,
                )) ==> final(repo).local == old(repo).local)
            }),
            Err(TrackError::NotFound(_)) => origin.configured && origin.head is None
                && *final(repo) == *old(repo),
            Err(TrackError::IOFailure) => origin.configured && origin.head is Some && old(
                repo,
            ).local is None,
            Err(_) => false,
        },
{
    if !has_remote(origin) {
        return Ok(false);
    }
    match fetch(repo, origin) {
        Ok(()) => {},
        Err(TrackError::NotFound(_)) => {
            let mut m = String::new();
            m.append("branch not found on the remote; publish it first");
            return Err(TrackError::NotFound(m));
        },
        Err(e) => {
            return Err(e);
        },
    }
    match fast_forward(odb, repo) {
        Ok(()) => Ok(true),
        Err(e) => Err(e),
    }
}

/// What a synchronization did.
#[derive(Debug, Clone, Copy, PartialEq, Eq, Structural)]
pub enum SyncOutcome {
    /// The local head was published as-is: the remote had no branch yet, or
    /// was strictly behind (the ahead state merges nothing).
    Published,
    /// Local and remote heads were already equal.
    InSync,
    /// The local head was behind and adopted the remote head.
    FastForwarded,
    /// Histories had diverged; a merge snapshot was created and published.
    Merged,
}

/// The snapshot that serves as merge ancestor for two heads: the most recent
/// common ancestor's, or the empty document when the heads share no history.
pub open spec fn merge_base_store(c: Seq<CommitView>, l: int, h: int, bs: StoreView) -> bool {
    ||| (exists|m: int|
        0 <= m < c.len() && #[trigger] common_ancestor(c, m, l, h) && (forall|m2: int|
            m < m2 < c.len() ==> !common_ancestor(c, m2, l, h)) && bs == c[m].store)
    ||| ((forall|m: int| 0 <= m < c.len() ==> !common_ancestor(c, m, l, h)) && bs == (StoreView {
        items: Seq::empty(),
        deps: Seq::empty(),
    }))
}

/// Synchronizes the local history with the remote. Classification and duty:
/// a missing remote branch or a strictly-ahead local head is published as-is
/// with no merge; equal heads change nothing; a local head strictly behind
/// adopts the remote head; diverged heads are reconciled by the merge engine
/// against their most recent common ancestor, recorded with both heads as
/// parents, and published. With a remote configured and a local head
/// present, synchronization always succeeds.
pub fn sync(odb: &mut Odb, repo: &mut Repo, origin: &mut Origin) -> (r: Result<
    SyncOutcome,
    TrackError,
>)
    requires
        odb_wf(old(odb)@),
        odb_stores_wf(old(odb)@),
        repo_wf(old(repo), old(odb)@),
        origin_wf(old(origin), old(odb)@),
    ensures
        odb_wf(final(odb)@),
        odb_stores_wf(final(odb)@),
        repo_wf(final(repo), final(odb)@),
        origin_wf(final(origin), final(odb)@),
        forall|i: int| 0 <= i < old(odb)@.len() ==> final(odb)@[i] == old(odb)@[i],
        final(odb)@.len() <= old(odb)@.len() + 1,
        old(origin).configured && old(repo).local is Some ==> r is Ok,
        match r {
            Ok(SyncOutcome::Published) => ({
                &&& final(odb)@ == old(odb)@
                &&& final(repo).local == old(repo).local
                &&& final(origin).head == final(repo).local
                &&& (old(origin).head is None || (old(origin).head matches Some(h) && old(
                    repo,
                ).local matches Some(l) && l != h && is_ancestor_spec(
                    old(odb)@,
                    h as int,
                    l as int,
                )))
            }),
            Ok(SyncOutcome::InSync) => ({
                &&& final(odb)@ == old(odb)@
                &&& final(repo).local == old(repo).local
                &&& final(origin).head == old(origin).head
                &&& old(origin).head is Some && old(repo).local == old(origin).head
            }),
            Ok(SyncOutcome::FastForwarded) => ({
                &&& final(odb)@ == old(odb)@
                &&& final(origin).head == old(origin).head
                &&& old(origin).head matches Some(h) && old(repo).local matches Some(l) && l != h
                    && is_ancestor_spec(old(odb)@, l as int, h as int)
                &&& final(repo).local == old(origin).head
            }),
            Ok(SyncOutcome::Merged) => ({
                let l = old(repo).local.unwrap() as int;
                let h = old(origin).head.unwrap() as int;
                &&& old(repo).local is Some && old(origin).head is Some
                &&& l != h && !is_ancestor_spec(old(odb)@, l, h) && !is_ancestor_spec(
                    old(odb)@,
                    h,
                    l,
                )
                &&& final(odb)@.len() == old(odb)@.len() + 1
                &&& final(odb)@.last().parents == seq![l, h]
                &&& final(repo).local == Some((final(odb)@.len() - 1) as usize)
                &&& final(origin).head == final(repo).local
                &&& (exists|bs: StoreView|
                    #[trigger] merge_base_store(old(odb)@, l, h, bs) && merge_post(
                        bs,
                        old(odb)@[l].store,
                        old(odb)@[h].store,
                        final(odb)@.last().store,
                    ))
            }),
            Err(TrackError::TransportUnavailable) => !old(origin).configured && final(odb)@ == old(
                odb,
            )@ && *final(repo) == *old(repo) && *final(origin) == *old(origin),
            Err(TrackError::IOFailure) => old(origin).configured && old(repo).local is None
                && final(odb)@ == old(odb)@ && final(origin).head == old(origin).head,
            Err(_) => false,
        },
{
    if !has_remote(origin) {
        return Err(TrackError::TransportUnavailable);
    }
    match fetch(repo, origin) {
        Err(_) => {
            // The remote does not have the branch yet: publish ours.
            match push(repo, origin, odb) {
                Ok(()) => {
                    return Ok(SyncOutcome::Published);
                },
                Err(e) => {
                    return Err(e);
                },
            }
        },
        Ok(()) => {},
    }
    let local0 = match local_ref(repo) {
        Ok(l) => l,
        Err(e) => {
            return Err(e);
        },
    };
    let tracking = match remote_ref(repo) {
        Ok(t) => t,
        Err(e) => {
            return Err(e);
        },
    };
    if local0 == tracking {
        return Ok(SyncOutcome::InSync);
    }
    match fast_forward(odb, repo) {
        Ok(()) => {},
        Err(e) => {
            proof {
                assert(false);
            }
            return Err(e);
        },
    }
    let local1 = match local_ref(repo) {
        Ok(l) => l,
        Err(e) => {
            return Err(e);
        },
    };
    if local1 == tracking {
        return Ok(SyncOutcome::FastForwarded);
    }
    if is_ancestor(odb, tracking, local1) {
        // Ahead: the remote head is already part of local history, so the
        // local head is published as-is, with no merge.
        match push(repo, origin, odb) {
            Ok(()) => {
                return Ok(SyncOutcome::Published);
            },
            Err(e) => {
                proof {
                    assert(false);
                }
                return Err(e);
            },
        }
    }
    // Diverged: merge against the most recent common ancestor and publish.
    let ghost pre = odb@;
    let ghost l1 = local1 as int;
    let ghost h1 = tracking as int;
    let mb = match merge_base(odb, repo) {
        Ok(m) => m,
        Err(e) => {
            proof {
                assert(false);
            }
            return Err(e);
        },
    };
    let base_store = match mb {
        Some(c) => match read_store_from_ref(odb, c) {
            Ok(s) => s,
            Err(e) => {
                proof {
                    assert(false);
                }
                return Err(e);
            },
        },
        None => Store::new(),
    };
    proof {
        match mb {
            Some(c) => {
                assert(common_ancestor(pre, c as int, l1, h1));
                assert(base_store@ == pre[c as int].store);
            },
            None => {
                assert(base_store@.items =~= Seq::<ItemView>::empty());
                assert(base_store@.deps =~= Seq::<crate::model::DepView>::empty());
                assert(base_store@ == (StoreView {
                    items: Seq::<ItemView>::empty(),
                    deps: Seq::<crate::model::DepView>::empty(),
                }));
            },
        }
        assert(merge_base_store(pre, l1, h1, base_store@));
    }
    let local_store = match load(odb, repo) {
        Ok(s) => s,
        Err(e) => {
            proof {
                assert(false);
            }
            return Err(e);
        },
    };
    let remote_store = match read_store_from_ref(odb, tracking) {
        Ok(s) => s,
        Err(e) => {
            proof {
                assert(false);
            }
            return Err(e);
        },
    };
    let merged = match merge_stores(&base_store, &local_store, &remote_store) {
        Ok(m) => m,
        Err(e) => {
            proof {
                assert(false);
            }
            return Err(e);
        },
    };
    match create_merge_commit(odb, repo, &merged, local1, tracking, "synchronized snapshots") {
        Ok(()) => {},
        Err(e) => {
            return Err(e);
        },
    }
    proof {
        let n = odb@.len() - 1;
        assert(odb@[n].parents[1] == h1);
        lemma_parent_edge_is_ancestor(odb@, h1, n);
    }
    match push(repo, origin, odb) {
        Ok(()) => Ok(SyncOutcome::Merged),
        Err(e) => {
            proof {
                let n = odb@.len() - 1;
                assert(origin.configured);
                assert(origin.head == Some(tracking));
                assert(repo.local is Some);
                assert(repo.local.unwrap() as int == n);
                assert(is_ancestor_spec(odb@, h1, n));
                assert(false);
            }
            Err(e)
        },
    }
}

/// The head the claim protocol works from after its fast-forward-only
/// synchronization: the local head when no remote is configured, else the
/// origin head, provided the local head equals it or sits behind it. A
/// diverged or missing local head has no such base.
pub open spec fn ff_base(c: Seq<CommitView>, repo: &Repo, origin: &Origin) -> Option<int> {
    if !origin.configured {
        match repo.local {
            Some(l) => Some(l as int),
            None => None,
        }
    } else {
        match (origin.head, repo.local) {
            (Some(h), Some(l)) => if l == h || is_ancestor_spec(c, l as int, h as int) {
                Some(h as int)
            } else {
                None
            },
            _ => None,
        }
    }
}

/// The item `c` of snapshot `ws`, with the claimant replaced and the update
/// timestamp moved forward, and nothing else of the document touched: how a
/// granted claim or release relates the published snapshot `ns` to the
/// synchronized working snapshot `ws`.
pub open spec fn reclaimed_snapshot(
    ws: StoreView,
    ns: StoreView,
    c: Seq<char>,
    who: Option<Seq<char>>,
) -> bool {
    &&& has_id(ns.items, c)
    &&& item_of(ns.items, c) == (ItemView {
        claimed_by: who,
        updated_at: item_of(ns.items, c).updated_at,
        ..item_of(ws.items, c)
    })
    &&& item_of(ns.items, c).updated_at >= item_of(ws.items, c).updated_at
    &&& forall|x: Seq<char>| x != c ==> #[trigger] has_id(ns.items, x) == has_id(ws.items, x)
    &&& forall|x: Seq<char>|
        x != c && has_id(ns.items, x) ==> #[trigger] item_of(ns.items, x) == item_of(ws.items, x)
    &&& ns.deps == ws.deps
}

/// The local verification step of the claim protocol: the item must exist,
/// be open, and carry no claimant. Callers that drive an outside transport
/// run the same check before recording a claim.
pub fn claim_precheck(s: &Store, id: &String) -> (r: Result<(), TrackError>)
    requires
        store_wf(s@),
    ensures
        match r {
            Ok(()) => has_id(s@.items, id@) && item_of(s@.items, id@).status
                == crate::model::Status::Open && item_of(s@.items, id@).claimed_by is None,
            Err(TrackError::NotFound(_)) => !has_id(s@.items, id@) || item_of(s@.items, id@).status
                == crate::model::Status::Closed,
            Err(TrackError::AlreadyClaimed(w)) => has_id(s@.items, id@) && item_of(
                s@.items,
                id@,
            ).status == crate::model::Status::Open && Some(w@) == item_of(
                s@.items,
                id@,
            ).claimed_by,
            Err(_) => false,
        },
{
    let item = match s.get_item(id) {
        Some(it) => it,
        None => {
            let mut m = String::new();
            m.append("no item matching '");
            m.append(id.as_str());
            m.append("'");
            return Err(TrackError::NotFound(m));
        },
    };
    let closed = match item.status {
        crate::model::Status::Closed => true,
        crate::model::Status::Open => false,
    };
    if closed {
        let mut m = String::new();
        m.append("item '");
        m.append(id.as_str());
        m.append("' is closed");
        return Err(TrackError::NotFound(m));
    }
    match &item.claimed_by {
        Some(w) => Err(TrackError::AlreadyClaimed(w.clone())),
        None => Ok(()),
    }
}

/// The local verification step of releasing a claim: the item must exist and
/// carry a claimant to clear.
pub fn release_precheck(s: &Store, id: &String) -> (r: Result<(), TrackError>)
    requires
        store_wf(s@),
    ensures
        match r {
            Ok(()) => has_id(s@.items, id@) && item_of(s@.items, id@).claimed_by is Some,
            Err(TrackError::NotFound(_)) => !has_id(s@.items, id@),
            Err(TrackError::NotClaimed) => has_id(s@.items, id@) && item_of(
                s@.items,
                id@,
            ).claimed_by is None,
            Err(_) => false,
        },
{
    let item = match s.get_item(id) {
        Some(it) => it,
        None => {
            let mut m = String::new();
            m.append("no item matching '");
            m.append(id.as_str());
            m.append("'");
            return Err(TrackError::NotFound(m));
        },
    };
    if item.claimed_by.is_none() {
        return Err(TrackError::NotClaimed);
    }
    Ok(())
}

/// Grants this actor an exclusive claim on an item. The claim first adopts
/// the latest remote state by fast-forward only (never auto-merging, so a
/// concurrent claim is never masked), verifies that the item is open and
/// unclaimed, records the claim, and publishes it; a rejected publish is
/// retried exactly once after re-checking that no other actor's claim
/// arrived first — a genuine claim conflict is never merged away.
pub fn claim(odb: &mut Odb, repo: &mut Repo, origin: &mut Origin, query: &String) -> (r: Result<
    String,
    TrackError,
>)
    requires
        odb_wf(old(odb)@),
        odb_stores_wf(old(odb)@),
        repo_wf(old(repo), old(odb)@),
        origin_wf(old(origin), old(odb)@),
    ensures
        odb_wf(final(odb)@),
        odb_stores_wf(final(odb)@),
        repo_wf(final(repo), final(odb)@),
        origin_wf(final(origin), final(odb)@),
        // History only grows, by at most the claim snapshot and one merge
        // retry; a failed claim publishes nothing.
        forall|i: int| 0 <= i < old(odb)@.len() ==> final(odb)@[i] == old(odb)@[i],
        final(odb)@.len() <= old(odb)@.len() + 2,
        r is Err ==> final(origin).head == old(origin).head,
        r is Ok ==> final(repo).local is Some && old(repo).actor is Some && (old(
            origin,
        ).configured ==> final(origin).head == final(repo).local),
        // Exact behaviour from the synchronized working snapshot, whenever
        // the fast-forward-only synchronization has a defined base.
        ({
            let t = ff_base(old(odb)@, old(repo), old(origin));
            let ws = old(odb)@[t.unwrap()].store;
            let c = resolved(ws.items, query@).unwrap();
            t is Some ==> ({
                &&& ((resolved(ws.items, query@) is None && prefix_matches(
                    ws.items,
                    query@,
                ).len() == 0) ==> (r matches Err(TrackError::NotFound(_)) && final(odb)@ == old(
                    odb,
                )@))
                &&& ((resolved(ws.items, query@) is None && prefix_matches(
                    ws.items,
                    query@,
                ).len() >= 2) ==> (r matches Err(TrackError::AmbiguousPrefix(_, _)) && final(odb)@
                    == old(odb)@))
                &&& ((resolved(ws.items, query@) is Some && item_of(ws.items, c).status
                    == crate::model::Status::Closed) ==> (r matches Err(TrackError::NotFound(_))
                    && final(odb)@ == old(odb)@))
                &&& ((resolved(ws.items, query@) is Some && item_of(ws.items, c).status
                    == crate::model::Status::Open && item_of(ws.items, c).claimed_by is Some) ==> (
                r matches Err(TrackError::AlreadyClaimed(w)) && Some(w@) == item_of(
                    ws.items,
                    c,
                ).claimed_by && final(odb)@ == old(odb)@))
                &&& ((resolved(ws.items, query@) is Some && item_of(ws.items, c).status
                    == crate::model::Status::Open && item_of(ws.items, c).claimed_by is None && old(
                    repo,
                ).actor is None) ==> (r matches Err(TrackError::IOFailure) && final(odb)@ == old(
                    odb,
                )@))
                &&& ((resolved(ws.items, query@) is Some && item_of(ws.items, c).status
                    == crate::model::Status::Open && item_of(ws.items, c).claimed_by is None && old(
                    repo,
                ).actor is Some) ==> (r matches Ok(id) && id@ == c && reclaimed_snapshot(
                    ws,
                    final(odb)@.last().store,
                    c,
                    Some(old(repo).actor.unwrap()@),
                ) && final(repo).local == Some((final(odb)@.len() - 1) as usize)))
            })
        }),
{
    let ghost t = ff_base(old(odb)@, old(repo), old(origin));
    let has = match sync_from_remote(odb, repo, origin) {
        Ok(b) => b,
        Err(e) => {
            return Err(e);
        },
    };
    proof {
        if t is Some {
            assert(repo.local == Some(t.unwrap() as usize));
        }
    }
    let mut s = match load(odb, repo) {
        Ok(s) => s,
        Err(e) => {
            return Err(e);
        },
    };
    let id = match resolve_id(&s, query) {
        Ok(id) => id,
        Err(e) => {
            return Err(e);
        },
    };
    match claim_precheck(&s, &id) {
        Ok(()) => {},
        Err(e) => {
            return Err(e);
        },
    }
    let item = match s.get_item(&id) {
        Some(it) => it,
        None => {
            proof {
                assert(false);
            }
            return Err(TrackError::NotFound(id));
        },
    };
    let user = match git_user_name(repo) {
        Ok(u) => u,
        Err(e) => {
            return Err(e);
        },
    };
    let mut updated = item.clone();
    updated.claimed_by = Some(user.clone());
    updated.updated_at = crate::clock::later_of(updated.updated_at, crate::clock::now_millis());
    s.put_item(updated);
    let ghost pre_publish_local = repo.local;
    match save(odb, repo, &s, "claim") {
        Ok(()) => {},
        Err(e) => {
            return Err(e);
        },
    }
    proof {
        // The new snapshot descends from the head it was built on, so a
        // publish against an unmoved origin cannot be rejected.
        let n = odb@.len() - 1;
        assert(odb@[n].parents[0] == pre_publish_local.unwrap() as int);
        lemma_parent_edge_is_ancestor(odb@, pre_publish_local.unwrap() as int, n);
    }
    if has {
        match push(repo, origin, odb) {
            Ok(()) => {},
            Err(TrackError::TransportRejected) => {
                // Rejected: someone published first. A genuine competing
                // claim fails; an unrelated edit is merged and retried once.
                proof {
                    if t is Some {
                        let h = old(origin).head.unwrap();
                        assert(origin.configured);
                        assert(t.unwrap() == h as int);
                        assert(pre_publish_local == Some(h));
                        assert(repo.local.unwrap() as int == odb@.len() - 1);
                        assert(is_ancestor_spec(odb@, h as int, odb@.len() - 1));
                        assert(false);
                    }
                }
                match claim_retry(odb, repo, origin, &s, &id) {
                    Ok(()) => {},
                    Err(e) => {
                        return Err(e);
                    },
                }
            },
            Err(e) => {
                return Err(e);
            },
        }
    }
    proof {
        if t is Some {
            assert(odb@.last().store == s@);
        }
    }
    Ok(id)
}

/// The single retry of a rejected claim publish: re-fetches the remote
/// state, fails `AlreadyClaimed` when the remote copy already shows a
/// claimant, and otherwise merges the claim intent with the unrelated
/// concurrent edits and publishes once — it never loops.
fn claim_retry(odb: &mut Odb, repo: &mut Repo, origin: &mut Origin, s: &Store, id: &String) -> (r:
    Result<(), TrackError>)
    requires
        odb_wf(old(odb)@),
        odb_stores_wf(old(odb)@),
        repo_wf(old(repo), old(odb)@),
        origin_wf(old(origin), old(odb)@),
        store_wf(s@),
    ensures
        odb_wf(final(odb)@),
        odb_stores_wf(final(odb)@),
        repo_wf(final(repo), final(odb)@),
        origin_wf(final(origin), final(odb)@),
        forall|i: int| 0 <= i < old(odb)@.len() ==> final(odb)@[i] == old(odb)@[i],
        final(odb)@.len() <= old(odb)@.len() + 1,
        r is Err ==> final(origin).head == old(origin).head,
        r is Ok ==> final(origin).head == final(repo).local && final(repo).local is Some,
{
    match fetch(repo, origin) {
        Ok(()) => {},
        Err(e) => {
            return Err(e);
        },
    }
    let rref = match remote_ref(repo) {
        Ok(t) => t,
        Err(e) => {
            return Err(e);
        },
    };
    let remote_store = match read_store_from_ref(odb, rref) {
        Ok(rs) => rs,
        Err(e) => {
            return Err(e);
        },
    };
    match remote_store.get_item(id) {
        Some(rit) => match &rit.claimed_by {
            Some(w) => {
                return Err(TrackError::AlreadyClaimed(w.clone()));
            },
            None => {},
        },
        None => {},
    }
    let base_store = match merge_base(odb, repo) {
        Ok(Some(c)) => match read_store_from_ref(odb, c) {
            Ok(bs) => bs,
            Err(e) => {
                return Err(e);
            },
        },
        Ok(None) => Store::new(),
        Err(e) => {
            return Err(e);
        },
    };
    let merged = match merge_stores(&base_store, s, &remote_store) {
        Ok(m) => m,
        Err(e) => {
            return Err(e);
        },
    };
    let lref = match local_ref(repo) {
        Ok(l) => l,
        Err(e) => {
            return Err(e);
        },
    };
    let merged_commit = create_merge_commit(odb, repo, &merged, lref, rref, "merge claim");
    match merged_commit {
        Ok(()) => {},
        Err(e) => {
            return Err(e);
        },
    }
    match push(repo, origin, odb) {
        Ok(()) => Ok(()),
        Err(e) => Err(e),
    }
}

/// Releases this actor's claim on an item: mirrors `claim` without the
/// already-claimed precondition, failing `NotClaimed` when there is no
/// claimant to clear; the status is never touched.
pub fn unclaim(odb: &mut Odb, repo: &mut Repo, origin: &mut Origin, query: &String) -> (r: Result<
    String,
    TrackError,
>)
    requires
        odb_wf(old(odb)@),
        odb_stores_wf(old(odb)@),
        repo_wf(old(repo), old(odb)@),
        origin_wf(old(origin), old(odb)@),
    ensures
        odb_wf(final(odb)@),
        odb_stores_wf(final(odb)@),
        repo_wf(final(repo), final(odb)@),
        origin_wf(final(origin), final(odb)@),
        forall|i: int| 0 <= i < old(odb)@.len() ==> final(odb)@[i] == old(odb)@[i],
        final(odb)@.len() <= old(odb)@.len() + 2,
        r is Err ==> final(origin).head == old(origin).head,
        r is Ok ==> final(repo).local is Some && (old(origin).configured ==> final(origin).head
            == final(repo).local),
        ({
            let t = ff_base(old(odb)@, old(repo), old(origin));
            let ws = old(odb)@[t.unwrap()].store;
            let c = resolved(ws.items, query@).unwrap();
            t is Some ==> ({
                &&& ((resolved(ws.items, query@) is None && prefix_matches(
                    ws.items,
                    query@,
                ).len() == 0) ==> (r matches Err(TrackError::NotFound(_)) && final(odb)@ == old(
                    odb,
                )@))
                &&& ((resolved(ws.items, query@) is None && prefix_matches(
                    ws.items,
                    query@,
                ).len() >= 2) ==> (r matches Err(TrackError::AmbiguousPrefix(_, _)) && final(odb)@
                    == old(odb)@))
                &&& ((resolved(ws.items, query@) is Some && item_of(ws.items, c).claimed_by
                    is None) ==> (r matches Err(TrackError::NotClaimed) && final(odb)@ == old(
                    odb,
                )@))
                &&& ((resolved(ws.items, query@) is Some && item_of(ws.items, c).claimed_by
                    is Some) ==> (r matches Ok(id) && id@ == c && reclaimed_snapshot(
                    ws,
                    final(odb)@.last().store,
                    c,
                    None,
                ) && final(repo).local == Some((final(odb)@.len() - 1) as usize)))
            })
        }),
{
    let ghost t = ff_base(old(odb)@, old(repo), old(origin));
    let has = match sync_from_remote(odb, repo, origin) {
        Ok(b) => b,
        Err(e) => {
            return Err(e);
        },
    };
    proof {
        if t is Some {
            assert(repo.local == Some(t.unwrap() as usize));
        }
    }
    let mut s = match load(odb, repo) {
        Ok(s) => s,
        Err(e) => {
            return Err(e);
        },
    };
    let id = match resolve_id(&s, query) {
        Ok(id) => id,
        Err(e) => {
            return Err(e);
        },
    };
    match release_precheck(&s, &id) {
        Ok(()) => {},
        Err(e) => {
            return Err(e);
        },
    }
    let item = match s.get_item(&id) {
        Some(it) => it,
        None => {
            proof {
                assert(false);
            }
            return Err(TrackError::NotFound(id));
        },
    };
    let mut updated = item.clone();
    updated.claimed_by = None;
    updated.updated_at = crate::clock::later_of(updated.updated_at, crate::clock::now_millis());
    s.put_item(updated);
    let ghost pre_publish_local = repo.local;
    match save(odb, repo, &s, "release claim") {
        Ok(()) => {},
        Err(e) => {
            return Err(e);
        },
    }
    proof {
        let n = odb@.len() - 1;
        assert(odb@[n].parents[0] == pre_publish_local.unwrap() as int);
        lemma_parent_edge_is_ancestor(odb@, pre_publish_local.unwrap() as int, n);
    }
    if has {
        match push(repo, origin, odb) {
            Ok(()) => {},
            Err(TrackError::TransportRejected) => {
                proof {
                    if t is Some {
                        let h = old(origin).head.unwrap();
                        assert(origin.configured);
                        assert(t.unwrap() == h as int);
                        assert(pre_publish_local == Some(h));
                        assert(repo.local.unwrap() as int == odb@.len() - 1);
                        assert(is_ancestor_spec(odb@, h as int, odb@.len() - 1));
                        assert(false);
                    }
                }
                match claim_retry(odb, repo, origin, &s, &id) {
                    Ok(()) => {},
                    Err(e) => {
                        return Err(e);
                    },
                }
            },
            Err(e) => {
                return Err(e);
            },
        }
    }
    proof {
        if t is Some {
            assert(odb@.last().store == s@);
        }
    }
    Ok(id)
}

} // verus!
