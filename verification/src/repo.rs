//! The versioned-object transport, modelled in memory: an append-only store
//! of immutable snapshot commits, a local head and remote-tracking reference,
//! and a shared origin whose head moves only by compare-and-swap. The sync
//! and claim protocols are verified against this model; an outside transport
//! with the same interface can drive the same engine.

use vstd::prelude::*;

use crate::errors::TrackError;
use crate::model::Store;
use crate::model::StoreView;

verus! {

/// One immutable snapshot in history, with up to two parents.
pub struct Commit {
    pub store: Store,
    pub parents: Vec<usize>,
    pub message: String,
}

/// Mathematical image of a commit.
pub ghost struct CommitView {
    pub store: StoreView,
    pub parents: Seq<int>,
    pub message: Seq<char>,
}

impl View for Commit {
    type V = CommitView;

    open spec fn view(&self) -> CommitView {
        CommitView {
            store: self.store@,
            parents: self.parents@.map_values(|p: usize| p as int),
            message: self.message@,
        }
    }
}

/// The append-only object store.
pub struct Odb {
    pub commits: Vec<Commit>,
}

impl View for Odb {
    type V = Seq<CommitView>;

    open spec fn view(&self) -> Seq<CommitView> {
        self.commits@.map_values(|c: Commit| c@)
    }
}

/// Every commit's parents point strictly backwards in history.
pub open spec fn odb_wf(c: Seq<CommitView>) -> bool {
    forall|i: int, k: int|
        0 <= i < c.len() && 0 <= k < c[i].parents.len() ==> 0 <= #[trigger] c[i].parents[k] < i
}

/// Every stored snapshot is a well-formed document.
pub open spec fn odb_stores_wf(c: Seq<CommitView>) -> bool {
    forall|i: int| 0 <= i < c.len() ==> crate::model::store_wf((#[trigger] c[i]).store)
}

/// An actor's references into history.
pub struct Repo {
    /// The local head: the snapshot this actor currently works on.
    pub local: Option<usize>,
    /// The remote-tracking reference: where the origin head was last seen.
    pub tracking: Option<usize>,
    /// This actor's identity.
    pub actor: Option<String>,
}

/// The references are within history.
pub open spec fn repo_wf(r: &Repo, c: Seq<CommitView>) -> bool {
    &&& match r.local {
        Some(h) => h < c.len(),
        None => true,
    }
    &&& match r.tracking {
        Some(h) => h < c.len(),
        None => true,
    }
}

/// The shared remote: a single head reference that moves atomically.
pub struct Origin {
    pub configured: bool,
    pub head: Option<usize>,
}

/// The origin head is within history.
pub open spec fn origin_wf(o: &Origin, c: Seq<CommitView>) -> bool {
    match o.head {
        Some(h) => h < c.len(),
        None => true,
    }
}

impl Odb {
    /// An empty history.
    pub fn new() -> (r: Self)
        ensures
            r@.len() == 0,
            odb_wf(r@),
    {
        Odb { commits: Vec::new() }
    }
}

/// A remote is configured.
pub fn has_remote(origin: &Origin) -> (r: bool)
    ensures
        r == origin.configured,
{
    origin.configured
}

/// The local branch exists.
pub fn branch_exists(repo: &Repo) -> (r: bool)
    ensures
        r == (repo.local is Some),
{
    repo.local.is_some()
}

/// The remote-tracking branch exists.
pub fn remote_branch_exists(repo: &Repo) -> (r: bool)
    ensures
        r == (repo.tracking is Some),
{
    repo.tracking.is_some()
}

/// The local head reference.
pub fn local_ref(repo: &Repo) -> (r: Result<usize, TrackError>)
    ensures
        match r {
            Ok(h) => repo.local == Some(h),
            Err(TrackError::IOFailure) => repo.local is None,
            Err(_) => false,
        },
{
    match repo.local {
        Some(h) => Ok(h),
        None => Err(TrackError::IOFailure),
    }
}

/// The remote-tracking reference.
pub fn remote_ref(repo: &Repo) -> (r: Result<usize, TrackError>)
    ensures
        match r {
            Ok(h) => repo.tracking == Some(h),
            Err(TrackError::IOFailure) => repo.tracking is None,
            Err(_) => false,
        },
{
    match repo.tracking {
        Some(h) => Ok(h),
        None => Err(TrackError::IOFailure),
    }
}

/// This actor's recorded identity.
pub fn git_user_name(repo: &Repo) -> (r: Result<String, TrackError>)
    ensures
        match r {
            Ok(u) => repo.actor matches Some(a) && u@ == a@,
            Err(TrackError::IOFailure) => repo.actor is None,
            Err(_) => false,
        },
{
    match &repo.actor {
        Some(a) => Ok(a.clone()),
        None => Err(TrackError::IOFailure),
    }
}

/// The snapshot at a given historical reference.
pub fn read_store_from_ref(odb: &Odb, r: usize) -> (res: Result<Store, TrackError>)
    ensures
        match res {
            Ok(s) => r < odb@.len() && s@ == odb@[r as int].store,
            Err(TrackError::NotFound(_)) => r >= odb@.len(),
            Err(_) => false,
        },
{
    if r < odb.commits.len() {
        Ok(odb.commits[r].store.clone())
    } else {
        Err(TrackError::NotFound(make_text("no such snapshot reference")))
    }
}

/// The snapshot at the local head.
pub fn read_store(odb: &Odb, repo: &Repo) -> (res: Result<Store, TrackError>)
    requires
        repo_wf(repo, odb@),
    ensures
        match res {
            Ok(s) => repo.local matches Some(h) && s@ == odb@[h as int].store && (odb_stores_wf(
                odb@,
            ) ==> crate::model::store_wf(s@)),
            Err(TrackError::IOFailure) => repo.local is None,
            Err(_) => false,
        },
{
    match repo.local {
        Some(h) => Ok(odb.commits[h].store.clone()),
        None => Err(TrackError::IOFailure),
    }
}

/// Stores a new snapshot whose parent is the current local head and advances
/// the local head to it. The history is append-only: existing commits are
/// untouched.
pub fn write_store(odb: &mut Odb, repo: &mut Repo, store: &Store, message: &str) -> (r: Result<
    (),
    TrackError,
>)
    requires
        repo_wf(old(repo), old(odb)@),
        odb_wf(old(odb)@),
        odb_stores_wf(old(odb)@),
        crate::model::store_wf(store@),
    ensures
        odb_wf(final(odb)@),
        odb_stores_wf(final(odb)@),
        repo_wf(final(repo), final(odb)@),
        match r {
            Ok(()) => ({
                &&& old(repo).local is Some
                &&& final(odb)@.len() == old(odb)@.len() + 1
                &&& forall|i: int| 0 <= i < old(odb)@.len() ==> final(odb)@[i] == old(odb)@[i]
                &&& final(odb)@.last().store == store@
                &&& final(odb)@.last().parents == seq![old(repo).local.unwrap() as int]
                &&& final(odb)@.len() - 1 <= usize::MAX
                &&& final(repo).local == Some((final(odb)@.len() - 1) as usize)
                &&& final(repo).tracking == old(repo).tracking
                &&& final(repo).actor == old(repo).actor
            }),
            Err(TrackError::IOFailure) => old(repo).local is None && final(odb)@ == old(odb)@
                && *final(repo) == *old(repo),
            Err(_) => false,
        },
{
    let parent = match repo.local {
        Some(h) => h,
        None => {
            return Err(TrackError::IOFailure);
        },
    };
    let mut parents: Vec<usize> = Vec::new();
    parents.push(parent);
    let idx = odb.commits.len();
    odb.commits.push(
        Commit { store: store.clone(), parents, message: message.to_owned() },
    );
    repo.local = Some(idx);
    proof {
        assert(final(odb)@ =~= old(odb)@.push(final(odb)@.last()));
        assert(final(odb)@.last().parents =~= seq![parent as int]);
    }
    Ok(())
}

/// Stores a merge snapshot recording both prior heads as parents and
/// advances the local head to it.
pub fn create_merge_commit(
    odb: &mut Odb,
    repo: &mut Repo,
    store: &Store,
    parent1: usize,
    parent2: usize,
    message: &str,
) -> (r: Result<(), TrackError>)
    requires
        repo_wf(old(repo), old(odb)@),
        odb_wf(old(odb)@),
        odb_stores_wf(old(odb)@),
        crate::model::store_wf(store@),
        parent1 < old(odb)@.len(),
        parent2 < old(odb)@.len(),
    ensures
        odb_wf(final(odb)@),
        odb_stores_wf(final(odb)@),
        repo_wf(final(repo), final(odb)@),
        r is Ok,
        final(odb)@.len() == old(odb)@.len() + 1,
        forall|i: int| 0 <= i < old(odb)@.len() ==> final(odb)@[i] == old(odb)@[i],
        final(odb)@.last().store == store@,
        final(odb)@.last().parents == seq![parent1 as int, parent2 as int],
        final(odb)@.len() - 1 <= usize::MAX,
        final(repo).local == Some((final(odb)@.len() - 1) as usize),
        final(repo).tracking == old(repo).tracking,
        final(repo).actor == old(repo).actor,
{
    let mut parents: Vec<usize> = Vec::new();
    parents.push(parent1);
    parents.push(parent2);
    let idx = odb.commits.len();
    odb.commits.push(
        Commit { store: store.clone(), parents, message: message.to_owned() },
    );
    repo.local = Some(idx);
    proof {
        assert(final(odb)@ =~= old(odb)@.push(final(odb)@.last()));
        assert(final(odb)@.last().parents =~= seq![parent1 as int, parent2 as int]);
    }
    Ok(())
}

/// Updates the remote-tracking reference from the origin's head.
pub fn fetch(repo: &mut Repo, origin: &Origin) -> (r: Result<(), TrackError>)
    ensures
        final(repo).local == old(repo).local,
        final(repo).actor == old(repo).actor,
        match r {
            Ok(()) => origin.configured && origin.head is Some && final(repo).tracking
                == origin.head,
            Err(TrackError::TransportUnavailable) => !origin.configured && *final(repo) == *old(repo),
            Err(TrackError::NotFound(_)) => origin.configured && origin.head is None
                && *final(repo) == *old(repo),
            Err(_) => false,
        },
{
    if !origin.configured {
        return Err(TrackError::TransportUnavailable);
    }
    match origin.head {
        Some(h) => {
            repo.tracking = Some(h);
            Ok(())
        },
        None => Err(TrackError::NotFound(make_text("branch not found on the remote"))),
    }
}

/// Commit `a` is an ancestor of (or equal to) commit `b`, reachable within
/// the given walk budget.
pub open spec fn reaches_back(c: Seq<CommitView>, a: int, b: int, fuel: nat) -> bool
    decreases fuel,
{
    if a == b {
        true
    } else if fuel == 0 {
        false
    } else if 0 <= b < c.len() {
        exists|k: int|
            0 <= k < c[b].parents.len() && reaches_back(c, a, c[b].parents[k], (fuel - 1) as nat)
    } else {
        false
    }
}

/// `a` is an ancestor of (or equal to) `b`: the history's length is always
/// walk budget enough, because parents point strictly backwards.
pub open spec fn is_ancestor_spec(c: Seq<CommitView>, a: int, b: int) -> bool {
    reaches_back(c, a, b, c.len() as nat)
}

/// More walk budget never hurts.
proof fn lemma_reaches_fuel(c: Seq<CommitView>, a: int, b: int, f1: nat, f2: nat)
    requires
        reaches_back(c, a, b, f1),
        f1 <= f2,
    ensures
        reaches_back(c, a, b, f2),
    decreases f1,
{
    if a != b && f1 > 0 && 0 <= b < c.len() {
        let k = choose|k: int|
            0 <= k < c[b].parents.len() && reaches_back(c, a, c[b].parents[k], (f1 - 1) as nat);
        lemma_reaches_fuel(c, a, c[b].parents[k], (f1 - 1) as nat, (f2 - 1) as nat);
    }
}

/// In a well-formed history, a walk budget of `b + 1` always suffices.
proof fn lemma_reaches_cap(c: Seq<CommitView>, a: int, b: int, f: nat)
    requires
        odb_wf(c),
        0 <= b < c.len(),
        reaches_back(c, a, b, f),
    ensures
        reaches_back(c, a, b, (b + 1) as nat),
    decreases f,
{
    if a != b && f > 0 {
        let k = choose|k: int|
            0 <= k < c[b].parents.len() && reaches_back(c, a, c[b].parents[k], (f - 1) as nat);
        let p = c[b].parents[k];
        lemma_reaches_cap(c, a, p, (f - 1) as nat);
        lemma_reaches_fuel(c, a, p, (p + 1) as nat, b as nat);
    }
}

/// A commit is an ancestor of every commit that lists it as a parent.
pub proof fn lemma_parent_edge_is_ancestor(c: Seq<CommitView>, p: int, ch: int)
    requires
        0 <= ch < c.len(),
        exists|k: int| 0 <= k < c[ch].parents.len() && #[trigger] c[ch].parents[k] == p,
    ensures
        is_ancestor_spec(c, p, ch),
{
    if p != ch {
        let k = choose|k: int| 0 <= k < c[ch].parents.len() && #[trigger] c[ch].parents[k] == p;
        assert(reaches_back(c, p, c[ch].parents[k], (c.len() - 1) as nat));
    }
}

/// Decides whether commit `a` is an ancestor of (or equal to) commit `b`.
pub fn is_ancestor(odb: &Odb, a: usize, b: usize) -> (r: bool)
    requires
        odb_wf(odb@),
        a < odb@.len(),
        b < odb@.len(),
    ensures
        r == is_ancestor_spec(odb@, a as int, b as int),
    decreases b,
{
    if a == b {
        return true;
    }
    let parents = &odb.commits[b].parents;
    let ghost c = odb@;
    let mut k: usize = 0;
    while k < parents.len()
        invariant
            odb_wf(c),
            odb@ == c,
            a < c.len(),
            b < c.len(),
            a != b,
            parents@.map_values(|p: usize| p as int) == c[b as int].parents,
            k <= parents@.len(),
            forall|k2: int|
                0 <= k2 < k ==> !is_ancestor_spec(c, a as int, #[trigger] c[b as int].parents[k2]),
        decreases parents@.len() - k,
    {
        let p = parents[k];
        proof {
            assert(c[b as int].parents[k as int] == p as int);
            assert(p < b);
        }
        if is_ancestor(odb, a, p) {
            proof {
                lemma_reaches_cap(c, a as int, p as int, c.len() as nat);
                lemma_reaches_fuel(
                    c,
                    a as int,
                    p as int,
                    (p + 1) as nat,
                    (c.len() - 1) as nat,
                );
                assert(reaches_back(c, a as int, b as int, c.len() as nat));
            }
            return true;
        }
        k = k + 1;
    }
    proof {
        if is_ancestor_spec(c, a as int, b as int) {
            let k2 = choose|k2: int|
                0 <= k2 < c[b as int].parents.len() && reaches_back(
                    c,
                    a as int,
                    c[b as int].parents[k2],
                    (c.len() - 1) as nat,
                );
            lemma_reaches_cap(c, a as int, c[b as int].parents[k2], (c.len() - 1) as nat);
            lemma_reaches_fuel(
                c,
                a as int,
                c[b as int].parents[k2],
                (c[b as int].parents[k2] + 1) as nat,
                c.len() as nat,
            );
            assert(false);
        }
    }
    false
}

/// Publishes the local head to the origin: an atomic compare-and-swap that
/// succeeds only when the origin has not moved past the local view — that
/// is, when the origin's head is absent or already an ancestor of what is
/// being published.
pub fn push(repo: &Repo, origin: &mut Origin, odb: &Odb) -> (r: Result<(), TrackError>)
    requires
        odb_wf(odb@),
        repo_wf(repo, odb@),
        origin_wf(old(origin), odb@),
    ensures
        origin_wf(final(origin), odb@),
        final(origin).configured == old(origin).configured,
        match r {
            Ok(()) => ({
                &&& old(origin).configured
                &&& repo.local is Some
                &&& (old(origin).head is None || is_ancestor_spec(
                    odb@,
                    old(origin).head.unwrap() as int,
                    repo.local.unwrap() as int,
                ))
                &&& final(origin).head == repo.local
            }),
            Err(TrackError::TransportUnavailable) => !old(origin).configured && *final(origin)
                == *old(origin),
            Err(TrackError::IOFailure) => old(origin).configured && repo.local is None && *final(origin) == *old(origin),
            Err(TrackError::TransportRejected) => ({
                &&& old(origin).configured
                &&& repo.local is Some
                &&& old(origin).head is Some
                &&& !is_ancestor_spec(
                    odb@,
                    old(origin).head.unwrap() as int,
                    repo.local.unwrap() as int,
                )
                &&& *final(origin) == *old(origin)
            }),
            Err(_) => false,
        },
{
    if !origin.configured {
        return Err(TrackError::TransportUnavailable);
    }
    let local = match repo.local {
        Some(h) => h,
        None => {
            return Err(TrackError::IOFailure);
        },
    };
    match origin.head {
        None => {
            origin.head = Some(local);
            Ok(())
        },
        Some(h) => {
            if is_ancestor(odb, h, local) {
                origin.head = Some(local);
                Ok(())
            } else {
                Err(TrackError::TransportRejected)
            }
        },
    }
}

/// Fast-forwards the local head to the tracking reference when the local
/// head is an ancestor of it; does nothing when there is nothing to adopt,
/// when the heads agree, or when histories have diverged.
pub fn fast_forward(odb: &Odb, repo: &mut Repo) -> (r: Result<(), TrackError>)
    requires
        odb_wf(odb@),
        repo_wf(old(repo), odb@),
    ensures
        repo_wf(final(repo), odb@),
        final(repo).tracking == old(repo).tracking,
        final(repo).actor == old(repo).actor,
        match r {
            Ok(()) => ({
                ||| (old(repo).tracking is None && *final(repo) == *old(repo))
                ||| ({
                    &&& old(repo).tracking is Some
                    &&& old(repo).local is Some
                    &&& ({
                        let l = old(repo).local.unwrap() as int;
                        let t = old(repo).tracking.unwrap() as int;
                        if l != t && is_ancestor_spec(odb@, l, t) {
                            final(repo).local == old(repo).tracking
                        } else {
                            final(repo).local == old(repo).local
                        }
                    })
                })
            }),
            Err(TrackError::IOFailure) => old(repo).tracking is Some && old(repo).local is None
                && *final(repo) == *old(repo),
            Err(_) => false,
        },
{
    let tracking = match repo.tracking {
        Some(t) => t,
        None => {
            return Ok(());
        },
    };
    let local = match repo.local {
        Some(l) => l,
        None => {
            return Err(TrackError::IOFailure);
        },
    };
    if local == tracking {
        return Ok(());
    }
    if is_ancestor(odb, local, tracking) {
        repo.local = Some(tracking);
    }
    Ok(())
}

/// A common ancestor of `a` and `b` exists below or at this index.
pub open spec fn common_ancestor(c: Seq<CommitView>, m: int, a: int, b: int) -> bool {
    is_ancestor_spec(c, m, a) && is_ancestor_spec(c, m, b)
}

/// The most recent common ancestor of the local and tracking heads: the
/// highest index in history that reaches both.
pub fn merge_base(odb: &Odb, repo: &Repo) -> (r: Result<Option<usize>, TrackError>)
    requires
        odb_wf(odb@),
        repo_wf(repo, odb@),
    ensures
        match r {
            Ok(None) => repo.tracking is None || (repo.local is Some && forall|m: int|
                0 <= m < odb@.len() ==> !common_ancestor(
                    odb@,
                    m,
                    repo.local.unwrap() as int,
                    repo.tracking.unwrap() as int,
                )),
            Ok(Some(mb)) => ({
                &&& repo.local is Some
                &&& repo.tracking is Some
                &&& mb < odb@.len()
                &&& common_ancestor(
                    odb@,
                    mb as int,
                    repo.local.unwrap() as int,
                    repo.tracking.unwrap() as int,
                )
                &&& forall|m: int|
                    mb < m < odb@.len() ==> !common_ancestor(
                        odb@,
                        m,
                        repo.local.unwrap() as int,
                        repo.tracking.unwrap() as int,
                    )
            }),
            Err(TrackError::IOFailure) => repo.tracking is Some && repo.local is None,
            Err(_) => false,
        },
{
    let tracking = match repo.tracking {
        Some(t) => t,
        None => {
            return Ok(None);
        },
    };
    let local = match repo.local {
        Some(l) => l,
        None => {
            return Err(TrackError::IOFailure);
        },
    };
    let ghost c = odb@;
    let mut k: usize = odb.commits.len();
    while k > 0
        invariant
            odb_wf(c),
            odb@ == c,
            repo.local == Some(local),
            repo.tracking == Some(tracking),
            local < c.len(),
            tracking < c.len(),
            k <= c.len(),
            forall|m: int|
                k <= m < c.len() ==> !common_ancestor(c, m, local as int, tracking as int),
        decreases k,
    {
        let cand = k - 1;
        if is_ancestor(odb, cand, local) && is_ancestor(odb, cand, tracking) {
            return Ok(Some(cand));
        }
        k = k - 1;
    }
    Ok(None)
}

/// Sets up the tracker's history: fails `AlreadyInitialized` when the local
/// branch exists and changes nothing; adopts the remote branch when the
/// origin already has one; otherwise records the given snapshot as a root
/// commit and, when a remote is configured, publishes it. Setup is owed:
/// only an existing branch makes it fail.
pub fn init_branch(
    odb: &mut Odb,
    repo: &mut Repo,
    origin: &mut Origin,
    store: &Store,
) -> (r: Result<(), TrackError>)
    requires
        odb_wf(old(odb)@),
        odb_stores_wf(old(odb)@),
        crate::model::store_wf(store@),
        repo_wf(old(repo), old(odb)@),
        origin_wf(old(origin), old(odb)@),
    ensures
        odb_wf(final(odb)@),
        odb_stores_wf(final(odb)@),
        repo_wf(final(repo), final(odb)@),
        origin_wf(final(origin), final(odb)@),
        final(repo).actor == old(repo).actor,
        match r {
            Ok(()) => ({
                &&& old(repo).local is None
                &&& if old(origin).configured && old(origin).head is Some {
                    // The remote already had the branch: adopt it, write nothing.
                    &&& final(repo).local == old(origin).head
                    &&& final(repo).tracking == old(origin).head
                    &&& final(odb)@ == old(odb)@
                    &&& *final(origin) == *old(origin)
                } else {
                    // A fresh root commit holding exactly the given snapshot.
                    &&& final(odb)@.len() == old(odb)@.len() + 1
                    &&& (forall|i: int| 0 <= i < old(odb)@.len() ==> final(odb)@[i] == old(odb)@[i])
                    &&& final(odb)@.last().store == store@
                    &&& final(odb)@.last().parents.len() == 0
                    &&& final(repo).local == Some((final(odb)@.len() - 1) as usize)
                    &&& (old(origin).configured ==> final(origin).head == final(repo).local)
                    &&& (!old(origin).configured ==> *final(origin) == *old(origin))
                }
            }),
            Err(TrackError::AlreadyInitialized) => old(repo).local is Some && final(odb)@ == old(odb)@
                && *final(repo) == *old(repo) && *final(origin) == *old(origin),
            Err(_) => false,
        },
{
    if repo.local.is_some() {
        return Err(TrackError::AlreadyInitialized);
    }
    if origin.configured {
        match fetch(repo, origin) {
            Ok(()) => {
                // The remote already has the branch: adopt it.
                repo.local = match repo.tracking {
                    Some(t) => Some(t),
                    None => None,
                };
                return Ok(());
            },
            Err(_) => {},
        }
    }
    let idx = odb.commits.len();
    odb.commits.push(
        Commit {
            store: store.clone(),
            parents: Vec::new(),
            message: make_text("set up the tracker"),
        },
    );
    repo.local = Some(idx);
    proof {
        assert(final(odb)@ =~= old(odb)@.push(final(odb)@.last()));
        assert(final(odb)@.last().parents.len() == 0);
    }
    if origin.configured {
        match push(repo, origin, odb) {
            Ok(()) => {},
            Err(e) => {
                proof {
                    assert(false);
                }
                return Err(e);
            },
        }
    }
    Ok(())
}

/// Builds an owned message from a literal.
fn make_text(text: &str) -> (r: String)
    ensures
        r@ == text@,
{
    text.to_owned()
}

} // verus!
