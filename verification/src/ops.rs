//! The graph invariant engine: mutation operations that keep ids unique, the
//! parent relation acyclic, and edges free of dangling endpoints, plus the
//! structural queries they are built on.

use vstd::prelude::*;

use crate::errors::TrackError;
use crate::model::has_id;
use crate::model::store_wf;
use crate::model::Dep;
use crate::model::item_of;
use crate::model::DepView;
use crate::model::ItemView;
use crate::model::Store;
use crate::strutil::is_prefix;
use crate::strutil::str_eq;
use crate::strutil::str_starts_with;

verus! {

/// The ids of all items whose id starts with `p`, in document order.
pub open spec fn prefix_matches(items: Seq<ItemView>, p: Seq<char>) -> Seq<Seq<char>>
    decreases items.len(),
{
    if items.len() == 0 {
        Seq::empty()
    } else {
        let rest = prefix_matches(items.drop_last(), p);
        if is_prefix(p, items.last().id) {
            rest.push(items.last().id)
        } else {
            rest
        }
    }
}

/// Every listed match is the id of an item and starts with the prefix, and
/// every item id starting with the prefix is listed.
pub proof fn lemma_prefix_matches_props(items: Seq<ItemView>, p: Seq<char>)
    ensures
        forall|j: int|
            0 <= j < prefix_matches(items, p).len() ==> has_id(
                items,
                #[trigger] prefix_matches(items, p)[j],
            ) && is_prefix(p, prefix_matches(items, p)[j]),
        forall|i: int|
            0 <= i < items.len() && is_prefix(p, #[trigger] items[i].id) ==> prefix_matches(
                items,
                p,
            ).contains(items[i].id),
    decreases items.len(),
{
    if items.len() > 0 {
        let rest = items.drop_last();
        lemma_prefix_matches_props(rest, p);
        let pm = prefix_matches(items, p);
        let pmr = prefix_matches(rest, p);
        assert forall|j: int| 0 <= j < pm.len() implies has_id(items, #[trigger] pm[j])
            && is_prefix(p, pm[j]) by {
            if j < pmr.len() {
                assert(pm[j] == pmr[j]);
                let w = choose|k: int| 0 <= k < rest.len() && rest[k].id == pmr[j];
                assert(items[w].id == pmr[j]);
            } else {
                assert(pm[j] == items.last().id);
                assert(items[items.len() - 1].id == pm[j]);
            }
        }
        assert forall|i: int|
            0 <= i < items.len() && is_prefix(p, #[trigger] items[i].id) implies pm.contains(
            items[i].id,
        ) by {
            if i < items.len() - 1 {
                assert(rest[i] == items[i]);
                assert(pmr.contains(items[i].id));
                let w = choose|k: int| 0 <= k < pmr.len() && pmr[k] == items[i].id;
                assert(pm[w] == items[i].id);
            } else {
                assert(pm.last() == items[i].id);
            }
        }
    }
}

/// An id resolves to `rid`: either it is itself the id of an item, or it is a
/// prefix matching exactly one item, whose id is `rid`.
pub open spec fn resolves_to(items: Seq<ItemView>, p: Seq<char>, rid: Seq<char>) -> bool {
    if has_id(items, p) {
        rid == p
    } else {
        prefix_matches(items, p) =~= seq![rid]
    }
}

/// What an id or prefix resolves to, as a total function: the exact id if one
/// matches, else the unique prefix match, else nothing.
pub open spec fn resolved(items: Seq<ItemView>, q: Seq<char>) -> Option<Seq<char>> {
    if has_id(items, q) {
        Some(q)
    } else if prefix_matches(items, q).len() == 1 {
        Some(prefix_matches(items, q)[0])
    } else {
        None
    }
}

/// A query that matches nothing: neither an exact id nor any prefix.
pub open spec fn resolution_missing(items: Seq<ItemView>, q: Seq<char>) -> bool {
    !has_id(items, q) && prefix_matches(items, q).len() == 0
}

/// A query that is an ambiguous prefix: no exact id, two or more matches.
pub open spec fn resolution_ambiguous(items: Seq<ItemView>, q: Seq<char>) -> bool {
    !has_id(items, q) && prefix_matches(items, q).len() >= 2
}

/// Resolves an id or unique id prefix to the full id of an existing item.
/// An exact id match always wins; otherwise a unique prefix match is taken;
/// zero matches fail `NotFound` and two or more fail `AmbiguousPrefix`,
/// listing every match.
pub fn resolve_id(store: &Store, prefix: &String) -> (r: Result<String, TrackError>)
    ensures
        match r {
            Ok(id) => resolves_to(store@.items, prefix@, id@) && has_id(store@.items, id@)
                && resolved(store@.items, prefix@) == Some(id@),
            Err(TrackError::NotFound(_)) => !has_id(store@.items, prefix@) && prefix_matches(
                store@.items,
                prefix@,
            ).len() == 0,
            Err(TrackError::AmbiguousPrefix(p, ms)) => !has_id(store@.items, prefix@) && p@
                == prefix@ && ms@.map_values(|s: String| s@) == prefix_matches(
                store@.items,
                prefix@,
            ) && prefix_matches(store@.items, prefix@).len() >= 2,
            Err(_) => false,
        },
        has_id(store@.items, prefix@) ==> (r matches Ok(id) && id@ == prefix@),
{
    if store.contains_id(prefix) {
        return Ok(prefix.clone());
    }
    let ghost items = store@.items;
    let mut ms: Vec<String> = Vec::new();
    let mut i: usize = 0;
    proof {
        assert(items.take(0) =~= Seq::<ItemView>::empty());
    }
    while i < store.items.len()
        invariant
            i <= items.len(),
            store@.items == items,
            ms@.map_values(|s: String| s@) == prefix_matches(items.take(i as int), prefix@),
        decreases items.len() - i,
    {
        let ghost pre = ms@.map_values(|s: String| s@);
        if str_starts_with(&store.items[i].id, prefix) {
            ms.push(store.items[i].id.clone());
        }
        proof {
            let t1 = items.take(i + 1);
            assert(t1.drop_last() =~= items.take(i as int));
            assert(t1.last() == items[i as int]);
            if is_prefix(prefix@, items[i as int].id) {
                assert(ms@.map_values(|s: String| s@) =~= pre.push(items[i as int].id));
            }
        }
        i = i + 1;
    }
    proof {
        assert(items.take(items.len() as int) =~= items);
        lemma_prefix_matches_props(items, prefix@);
    }
    if ms.len() == 0 {
        let mut m = String::new();
        m.append("no item matching '");
        m.append(prefix.as_str());
        m.append("'");
        Err(TrackError::NotFound(m))
    } else if ms.len() == 1 {
        let id = ms[0].clone();
        proof {
            let pm = prefix_matches(items, prefix@);
            assert(pm[0] == id@);
            assert(pm =~= seq![id@]);
        }
        Ok(id)
    } else {
        Err(TrackError::AmbiguousPrefix(prefix.clone(), ms))
    }
}

/// The ids of all items that have `id` as parent, in edge order.
pub open spec fn children_of(deps: Seq<DepView>, id: Seq<char>) -> Seq<Seq<char>>
    decreases deps.len(),
{
    if deps.len() == 0 {
        Seq::empty()
    } else {
        let rest = children_of(deps.drop_last(), id);
        let d = deps.last();
        if d.dep_type == crate::model::DepType::Parent && d.to_id == id {
            rest.push(d.from_id)
        } else {
            rest
        }
    }
}

/// The ids of all items that block `id`, in edge order.
pub open spec fn blockers_of(deps: Seq<DepView>, id: Seq<char>) -> Seq<Seq<char>>
    decreases deps.len(),
{
    if deps.len() == 0 {
        Seq::empty()
    } else {
        let rest = blockers_of(deps.drop_last(), id);
        let d = deps.last();
        if d.dep_type == crate::model::DepType::Blocks && d.to_id == id {
            rest.push(d.from_id)
        } else {
            rest
        }
    }
}

/// The ids of all items that `id` blocks, in edge order.
pub open spec fn blocking_of(deps: Seq<DepView>, id: Seq<char>) -> Seq<Seq<char>>
    decreases deps.len(),
{
    if deps.len() == 0 {
        Seq::empty()
    } else {
        let rest = blocking_of(deps.drop_last(), id);
        let d = deps.last();
        if d.dep_type == crate::model::DepType::Blocks && d.from_id == id {
            rest.push(d.to_id)
        } else {
            rest
        }
    }
}

/// The parent of `id`: the target of the first parent edge leaving it.
pub open spec fn parent_of(deps: Seq<DepView>, id: Seq<char>) -> Option<Seq<char>>
    decreases deps.len(),
{
    if deps.len() == 0 {
        None
    } else if deps[0].dep_type == crate::model::DepType::Parent && deps[0].from_id == id {
        Some(deps[0].to_id)
    } else {
        parent_of(deps.drop_first(), id)
    }
}

/// The children of an item: every `from` of a parent edge pointing at it.
pub fn get_children(store: &Store, id: &String) -> (r: Vec<String>)
    ensures
        r@.map_values(|s: String| s@) == children_of(store@.deps, id@),
{
    let ghost deps = store@.deps;
    let mut out: Vec<String> = Vec::new();
    let mut i: usize = 0;
    proof {
        assert(deps.take(0) =~= Seq::<DepView>::empty());
    }
    while i < store.deps.len()
        invariant
            i <= deps.len(),
            store@.deps == deps,
            out@.map_values(|s: String| s@) == children_of(deps.take(i as int), id@),
        decreases deps.len() - i,
    {
        let ghost pre = out@.map_values(|s: String| s@);
        let d = &store.deps[i];
        let is_parent = match d.dep_type {
            crate::model::DepType::Parent => true,
            crate::model::DepType::Blocks => false,
        };
        if is_parent && str_eq(d.to_id.as_str(), id.as_str()) {
            out.push(d.from_id.clone());
        }
        proof {
            let t1 = deps.take(i + 1);
            assert(t1.drop_last() =~= deps.take(i as int));
            assert(t1.last() == deps[i as int]);
            if deps[i as int].dep_type == crate::model::DepType::Parent && deps[i as int].to_id
                == id@ {
                assert(out@.map_values(|s: String| s@) =~= pre.push(deps[i as int].from_id));
            }
        }
        i = i + 1;
    }
    proof {
        assert(deps.take(deps.len() as int) =~= deps);
    }
    out
}

/// The items blocked on by an item: every `from` of a blocking edge into it.
pub fn get_blockers(store: &Store, id: &String) -> (r: Vec<String>)
    ensures
        r@.map_values(|s: String| s@) == blockers_of(store@.deps, id@),
{
    let ghost deps = store@.deps;
    let mut out: Vec<String> = Vec::new();
    let mut i: usize = 0;
    proof {
        assert(deps.take(0) =~= Seq::<DepView>::empty());
    }
    while i < store.deps.len()
        invariant
            i <= deps.len(),
            store@.deps == deps,
            out@.map_values(|s: String| s@) == blockers_of(deps.take(i as int), id@),
        decreases deps.len() - i,
    {
        let ghost pre = out@.map_values(|s: String| s@);
        let d = &store.deps[i];
        let is_blocks = match d.dep_type {
            crate::model::DepType::Parent => false,
            crate::model::DepType::Blocks => true,
        };
        if is_blocks && str_eq(d.to_id.as_str(), id.as_str()) {
            out.push(d.from_id.clone());
        }
        proof {
            let t1 = deps.take(i + 1);
            assert(t1.drop_last() =~= deps.take(i as int));
            assert(t1.last() == deps[i as int]);
            if deps[i as int].dep_type == crate::model::DepType::Blocks && deps[i as int].to_id
                == id@ {
                assert(out@.map_values(|s: String| s@) =~= pre.push(deps[i as int].from_id));
            }
        }
        i = i + 1;
    }
    proof {
        assert(deps.take(deps.len() as int) =~= deps);
    }
    out
}

/// The items an item blocks: every `to` of a blocking edge leaving it.
pub fn get_blocking(store: &Store, id: &String) -> (r: Vec<String>)
    ensures
        r@.map_values(|s: String| s@) == blocking_of(store@.deps, id@),
{
    let ghost deps = store@.deps;
    let mut out: Vec<String> = Vec::new();
    let mut i: usize = 0;
    proof {
        assert(deps.take(0) =~= Seq::<DepView>::empty());
    }
    while i < store.deps.len()
        invariant
            i <= deps.len(),
            store@.deps == deps,
            out@.map_values(|s: String| s@) == blocking_of(deps.take(i as int), id@),
        decreases deps.len() - i,
    {
        let ghost pre = out@.map_values(|s: String| s@);
        let d = &store.deps[i];
        let is_blocks = match d.dep_type {
            crate::model::DepType::Parent => false,
            crate::model::DepType::Blocks => true,
        };
        if is_blocks && str_eq(d.from_id.as_str(), id.as_str()) {
            out.push(d.to_id.clone());
        }
        proof {
            let t1 = deps.take(i + 1);
            assert(t1.drop_last() =~= deps.take(i as int));
            assert(t1.last() == deps[i as int]);
            if deps[i as int].dep_type == crate::model::DepType::Blocks && deps[i as int].from_id
                == id@ {
                assert(out@.map_values(|s: String| s@) =~= pre.push(deps[i as int].to_id));
            }
        }
        i = i + 1;
    }
    proof {
        assert(deps.take(deps.len() as int) =~= deps);
    }
    out
}

/// The parent of an item, if any.
pub fn get_parent(store: &Store, id: &String) -> (r: Option<String>)
    ensures
        opt_id_view(r) == parent_of(store@.deps, id@),
{
    let ghost deps = store@.deps;
    let mut i: usize = 0;
    proof {
        assert(deps.skip(0) =~= deps);
    }
    while i < store.deps.len()
        invariant
            i <= deps.len(),
            store@.deps == deps,
            parent_of(deps, id@) == parent_of(deps.skip(i as int), id@),
        decreases deps.len() - i,
    {
        let d = &store.deps[i];
        let is_parent = match d.dep_type {
            crate::model::DepType::Parent => true,
            crate::model::DepType::Blocks => false,
        };
        proof {
            assert(deps.skip(i as int)[0] == deps[i as int]);
        }
        if is_parent && str_eq(d.from_id.as_str(), id.as_str()) {
            return Some(d.to_id.clone());
        }
        proof {
            assert(deps.skip(i as int).drop_first() =~= deps.skip(i + 1));
        }
        i = i + 1;
    }
    proof {
        assert(deps.skip(deps.len() as int).len() == 0);
    }
    None
}

/// The view of an optional id.
pub open spec fn opt_id_view(o: Option<String>) -> Option<Seq<char>> {
    match o {
        Some(s) => Some(s@),
        None => None,
    }
}

/// The `n`-step ancestor of `start` along parent edges, if the chain reaches
/// that far.
pub open spec fn anc_n(deps: Seq<DepView>, start: Seq<char>, n: nat) -> Option<Seq<char>>
    decreases n,
{
    if n == 0 {
        Some(start)
    } else {
        match anc_n(deps, start, (n - 1) as nat) {
            Some(x) => parent_of(deps, x),
            None => None,
        }
    }
}

/// The parent relation is acyclic: no id is its own ancestor.
pub open spec fn parent_acyclic(deps: Seq<DepView>) -> bool {
    forall|x: Seq<char>, n: nat| 1 <= n ==> anc_n(deps, x, n) != Some(x)
}

/// Ancestor chains compose: walking `i + j` steps is walking `i` steps and
/// then `j` more.
pub proof fn lemma_anc_compose(deps: Seq<DepView>, start: Seq<char>, i: nat, j: nat)
    ensures
        anc_n(deps, start, i + j) == match anc_n(deps, start, i) {
            Some(x) => anc_n(deps, x, j),
            None => None,
        },
    decreases j,
{
    if j > 0 {
        lemma_anc_compose(deps, start, i, (j - 1) as nat);
        assert(anc_n(deps, start, i + j) == match anc_n(deps, start, (i + j - 1) as nat) {
            Some(x) => parent_of(deps, x),
            None => None,
        });
        match anc_n(deps, start, i) {
            Some(x) => {
                assert(anc_n(deps, x, j) == match anc_n(deps, x, (j - 1) as nat) {
                    Some(y) => parent_of(deps, y),
                    None => None,
                });
            },
            None => {},
        }
    }
}

/// A parent lookup that succeeds is witnessed by a parent edge.
pub proof fn lemma_parent_of_is_edge(deps: Seq<DepView>, x: Seq<char>)
    requires
        parent_of(deps, x) is Some,
    ensures
        exists|i: int|
            0 <= i < deps.len() && #[trigger] deps[i].dep_type == crate::model::DepType::Parent
                && deps[i].from_id == x && deps[i].to_id == parent_of(deps, x).unwrap(),
    decreases deps.len(),
{
    if deps[0].dep_type == crate::model::DepType::Parent && deps[0].from_id == x {
        assert(deps[0].dep_type == crate::model::DepType::Parent && deps[0].from_id == x && deps[
            0
        ].to_id == parent_of(deps, x).unwrap());
    } else {
        lemma_parent_of_is_edge(deps.drop_first(), x);
        let rest = deps.drop_first();
        let i = choose|i: int|
            0 <= i < rest.len() && #[trigger] rest[i].dep_type == crate::model::DepType::Parent
                && rest[i].from_id == x && rest[i].to_id == parent_of(rest, x).unwrap();
        assert(deps[i + 1] == rest[i]);
    }
}

/// The set of targets of parent edges.
pub open spec fn parent_targets(deps: Seq<DepView>) -> Set<Seq<char>>
    decreases deps.len(),
{
    if deps.len() == 0 {
        Set::empty()
    } else {
        let rest = parent_targets(deps.drop_last());
        if deps.last().dep_type == crate::model::DepType::Parent {
            rest.insert(deps.last().to_id)
        } else {
            rest
        }
    }
}

/// The target set is finite, no larger than the edge list, and holds the
/// target of every parent edge.
pub proof fn lemma_parent_targets(deps: Seq<DepView>)
    ensures
        parent_targets(deps).finite(),
        parent_targets(deps).len() <= deps.len(),
        forall|i: int|
            0 <= i < deps.len() && #[trigger] deps[i].dep_type == crate::model::DepType::Parent
                ==> parent_targets(deps).contains(deps[i].to_id),
    decreases deps.len(),
{
    if deps.len() > 0 {
        let rest = deps.drop_last();
        lemma_parent_targets(rest);
        assert forall|i: int|
            0 <= i < deps.len() && #[trigger] deps[i].dep_type
                == crate::model::DepType::Parent implies parent_targets(deps).contains(
            deps[i].to_id,
        ) by {
            if i < deps.len() - 1 {
                assert(rest[i] == deps[i]);
                assert(parent_targets(rest).contains(deps[i].to_id));
            }
        }
    }
}

/// Ancestor chains that revisit a node repeat forever with the same period.
proof fn lemma_anc_periodic(deps: Seq<DepView>, start: Seq<char>, k: nat, p: nat, m: nat)
    requires
        p >= 1,
        anc_n(deps, start, (k + p) as nat) == anc_n(deps, start, k),
        m >= k,
    ensures
        anc_n(deps, start, (m + p) as nat) == anc_n(deps, start, m),
    decreases m,
{
    if m > k {
        lemma_anc_periodic(deps, start, k, p, (m - 1) as nat);
        assert(anc_n(deps, start, (m + p) as nat) == match anc_n(
            deps,
            start,
            (m + p - 1) as nat,
        ) {
            Some(x) => parent_of(deps, x),
            None => None,
        });
        assert(anc_n(deps, start, m) == match anc_n(deps, start, (m - 1) as nat) {
            Some(x) => parent_of(deps, x),
            None => None,
        });
    }
}

/// Once an ancestor chain has closed a loop without meeting the target, no
/// further walking can ever meet it: the chain's values repeat.
proof fn lemma_anc_never_target(
    deps: Seq<DepView>,
    start: Seq<char>,
    target: Seq<char>,
    n: nat,
    k: nat,
    p: nat,
    m: nat,
)
    requires
        p >= 1,
        1 <= k,
        k + p == n + 1,
        anc_n(deps, start, (n + 1) as nat) == anc_n(deps, start, k),
        forall|mm: nat| 1 <= mm <= n ==> #[trigger] anc_n(deps, start, mm) != Some(target),
        1 <= m,
    ensures
        anc_n(deps, start, m) != Some(target),
    decreases m,
{
    if m > n {
        lemma_anc_periodic(deps, start, k, p, (m - p) as nat);
        lemma_anc_never_target(deps, start, target, n, k, p, (m - p) as nat);
    }
}

/// True when the id occurs in the list.
fn ids_contain(v: &Vec<String>, x: &String) -> (r: bool)
    ensures
        r == exists|j: int| 0 <= j < v@.len() && (#[trigger] v@[j])@ == x@,
{
    let mut i: usize = 0;
    while i < v.len()
        invariant
            i <= v@.len(),
            forall|j: int| 0 <= j < i ==> (#[trigger] v@[j])@ != x@,
        decreases v@.len() - i,
    {
        if str_eq(v[i].as_str(), x.as_str()) {
            return true;
        }
        i = i + 1;
    }
    false
}

/// Walks the ancestor chain of `start` and reports whether `target` appears
/// in it. The walk keeps a visited list and stops on a revisit, so it
/// terminates and stays exact even on a document whose parent edges already
/// form a cycle: a chain that loops without meeting the target never meets
/// it.
fn parent_chain_contains(store: &Store, start: &String, target: &String) -> (r: bool)
    ensures
        r == exists|n: nat| 1 <= n && anc_n(store@.deps, start@, n) == Some(target@),
{
    let ghost deps = store@.deps;
    proof {
        lemma_parent_targets(deps);
    }
    let mut cur: String = start.clone();
    let mut visited: Vec<String> = Vec::new();
    let ghost mut vset: Set<Seq<char>> = Set::empty();
    loop
        invariant
            store@.deps == deps,
            parent_targets(deps).finite(),
            parent_targets(deps).len() <= deps.len(),
            forall|i: int|
                0 <= i < deps.len() && #[trigger] deps[i].dep_type
                    == crate::model::DepType::Parent ==> parent_targets(deps).contains(
                    deps[i].to_id,
                ),
            anc_n(deps, start@, visited@.len() as nat) == Some(cur@),
            forall|k: nat|
                1 <= k <= visited@.len() ==> #[trigger] anc_n(deps, start@, k) == Some(
                    visited@[k - 1]@,
                ),
            forall|k: nat|
                1 <= k <= visited@.len() ==> #[trigger] anc_n(deps, start@, k) != Some(target@),
            vset.finite(),
            vset.len() == visited@.len(),
            vset.subset_of(parent_targets(deps)),
            forall|x: Seq<char>|
                #[trigger] vset.contains(x) <==> exists|j: int|
                    0 <= j < visited@.len() && (#[trigger] visited@[j])@ == x,
        decreases deps.len() + 1 - visited@.len(),
    {
        proof {
            vstd::set_lib::lemma_len_subset(vset, parent_targets(deps));
        }
        let ghost n = visited@.len() as nat;
        match get_parent(store, &cur) {
            None => {
                proof {
                    assert forall|m: nat| 1 <= m implies anc_n(deps, start@, m) != Some(
                        target@,
                    ) by {
                        if m > n {
                            assert(anc_n(deps, start@, (n + 1) as nat) == None::<Seq<char>>);
                            lemma_anc_compose(deps, start@, n + 1, (m - n - 1) as nat);
                        }
                    }
                }
                return false;
            },
            Some(anc) => {
                proof {
                    assert(anc_n(deps, start@, (n + 1) as nat) == Some(anc@));
                }
                if str_eq(anc.as_str(), target.as_str()) {
                    proof {
                        assert(anc_n(deps, start@, (n + 1) as nat) == Some(target@));
                    }
                    return true;
                }
                if ids_contain(&visited, &anc) {
                    // The chain has looped back on itself without meeting the
                    // target (possible only on an already-malformed parent
                    // relation): it never will.
                    proof {
                        let j = choose|j: int|
                            0 <= j < visited@.len() && (#[trigger] visited@[j])@ == anc@;
                        let k = (j + 1) as nat;
                        assert(anc_n(deps, start@, k) == Some(anc@));
                        assert(anc_n(deps, start@, (n + 1) as nat) == anc_n(deps, start@, k));
                        assert forall|m: nat| 1 <= m implies anc_n(deps, start@, m) != Some(
                            target@,
                        ) by {
                            lemma_anc_never_target(
                                deps,
                                start@,
                                target@,
                                n,
                                k,
                                (n + 1 - k) as nat,
                                m,
                            );
                        }
                    }
                    return false;
                }
                proof {
                    // A fresh ancestor: it is a parent-edge target, and it
                    // was not seen before, so the visited list keeps growing
                    // within a finite set.
                    lemma_parent_of_is_edge(deps, cur@);
                    assert(!vset.contains(anc@));
                }
                let ghost pre_visited = visited@;
                visited.push(anc.clone());
                proof {
                    vset = vset.insert(anc@);
                    assert(visited@[visited@.len() - 1]@ == anc@);
                    assert forall|x: Seq<char>| #[trigger] vset.contains(x) implies exists|j: int|
                        0 <= j < visited@.len() && (#[trigger] visited@[j])@ == x by {
                        if x == anc@ {
                            assert(visited@[visited@.len() - 1]@ == x);
                        } else {
                            let j = choose|j: int|
                                0 <= j < pre_visited.len() && (#[trigger] pre_visited[j])@ == x;
                            assert(visited@[j]@ == x);
                        }
                    }
                }
                cur = anc;
            },
        }
    }
}

/// The edge list without any parent edge leaving `c`.
pub open spec fn deps_remove_parent_edges(deps: Seq<DepView>, c: Seq<char>) -> Seq<DepView>
    decreases deps.len(),
{
    if deps.len() == 0 {
        Seq::empty()
    } else {
        let rest = deps_remove_parent_edges(deps.drop_first(), c);
        if deps[0].from_id == c && deps[0].dep_type == crate::model::DepType::Parent {
            rest
        } else {
            seq![deps[0]] + rest
        }
    }
}

/// The edge list without any edge from `f` to `t`, of either kind.
pub open spec fn deps_remove_pair(deps: Seq<DepView>, f: Seq<char>, t: Seq<char>) -> Seq<DepView>
    decreases deps.len(),
{
    if deps.len() == 0 {
        Seq::empty()
    } else {
        let rest = deps_remove_pair(deps.drop_first(), f, t);
        if deps[0].from_id == f && deps[0].to_id == t {
            rest
        } else {
            seq![deps[0]] + rest
        }
    }
}

/// The edge list without any edge mentioning `x` at either endpoint.
pub open spec fn deps_remove_id(deps: Seq<DepView>, x: Seq<char>) -> Seq<DepView>
    decreases deps.len(),
{
    if deps.len() == 0 {
        Seq::empty()
    } else {
        let rest = deps_remove_id(deps.drop_first(), x);
        if deps[0].from_id == x || deps[0].to_id == x {
            rest
        } else {
            seq![deps[0]] + rest
        }
    }
}

/// The edge list holds this exact edge.
pub open spec fn has_dep(deps: Seq<DepView>, d: DepView) -> bool {
    exists|i: int| 0 <= i < deps.len() && deps[i] == d
}

/// After removing `c`'s parent edges and appending a new parent edge from `c`
/// to `p`, `c`'s parent is `p` and every other id keeps its old parent.
pub proof fn lemma_parent_after_replace(deps: Seq<DepView>, c: Seq<char>, p: Seq<char>)
    ensures
        ({
            let e = DepView { from_id: c, to_id: p, dep_type: crate::model::DepType::Parent };
            let nd = deps_remove_parent_edges(deps, c).push(e);
            &&& parent_of(nd, c) == Some(p)
            &&& forall|x: Seq<char>| x != c ==> #[trigger] parent_of(nd, x) == parent_of(deps, x)
        }),
    decreases deps.len(),
{
    let e = DepView { from_id: c, to_id: p, dep_type: crate::model::DepType::Parent };
    let nd = deps_remove_parent_edges(deps, c).push(e);
    if deps.len() == 0 {
        assert(nd =~= seq![e]);
        assert(nd.drop_first() =~= Seq::<DepView>::empty());
        assert(parent_of(nd, c) == Some(p));
        assert forall|x: Seq<char>| x != c implies #[trigger] parent_of(nd, x) == parent_of(
            deps,
            x,
        ) by {
            assert(parent_of(nd, x) == parent_of(nd.drop_first(), x));
        }
    } else {
        lemma_parent_after_replace(deps.drop_first(), c, p);
        let rest = deps_remove_parent_edges(deps.drop_first(), c);
        let nrest = rest.push(e);
        let d0 = deps[0];
        if d0.from_id == c && d0.dep_type == crate::model::DepType::Parent {
            assert(nd == nrest);
            assert forall|x: Seq<char>| x != c implies #[trigger] parent_of(nd, x) == parent_of(
                deps,
                x,
            ) by {
                assert(parent_of(deps, x) == parent_of(deps.drop_first(), x));
            }
        } else {
            assert(nd =~= seq![d0] + nrest);
            assert(nd[0] == d0);
            assert(nd.drop_first() =~= nrest);
            if d0.dep_type == crate::model::DepType::Parent && d0.from_id == c {
                assert(false);
            }
            assert(parent_of(nd, c) == parent_of(nrest, c));
            assert forall|x: Seq<char>| x != c implies #[trigger] parent_of(nd, x) == parent_of(
                deps,
                x,
            ) by {
                if !(d0.dep_type == crate::model::DepType::Parent && d0.from_id == x) {
                    assert(parent_of(nd, x) == parent_of(nrest, x));
                    assert(parent_of(deps, x) == parent_of(deps.drop_first(), x));
                }
            }
        }
    }
}

/// Rebuilds the edge vector, keeping each edge unless it is a parent edge
/// leaving `c`.
fn retain_non_parent_edges(deps: &Vec<Dep>, c: &String) -> (r: Vec<Dep>)
    ensures
        r@.map_values(|d: Dep| d@) == deps_remove_parent_edges(
            deps@.map_values(|d: Dep| d@),
            c@,
        ),
{
    let ghost dv = deps@.map_values(|d: Dep| d@);
    let mut out: Vec<Dep> = Vec::new();
    let mut i: usize = 0;
    proof {
        assert(dv.skip(0) =~= dv);
        assert(out@.map_values(|d: Dep| d@) + deps_remove_parent_edges(dv.skip(0), c@)
            =~= deps_remove_parent_edges(dv, c@));
    }
    while i < deps.len()
        invariant
            i <= dv.len(),
            deps@.map_values(|d: Dep| d@) == dv,
            out@.map_values(|d: Dep| d@) + deps_remove_parent_edges(dv.skip(i as int), c@)
                == deps_remove_parent_edges(dv, c@),
        decreases dv.len() - i,
    {
        let ghost pre = out@.map_values(|d: Dep| d@);
        let d = &deps[i];
        let is_parent = match d.dep_type {
            crate::model::DepType::Parent => true,
            crate::model::DepType::Blocks => false,
        };
        if !(is_parent && str_eq(d.from_id.as_str(), c.as_str())) {
            out.push(d.clone());
        }
        proof {
            let s = dv.skip(i as int);
            assert(s[0] == dv[i as int]);
            assert(s.drop_first() =~= dv.skip(i + 1));
            if dv[i as int].from_id == c@ && dv[i as int].dep_type
                == crate::model::DepType::Parent {
                assert(deps_remove_parent_edges(s, c@) == deps_remove_parent_edges(
                    dv.skip(i + 1),
                    c@,
                ));
            } else {
                assert(deps_remove_parent_edges(s, c@) =~= seq![dv[i as int]]
                    + deps_remove_parent_edges(dv.skip(i + 1), c@));
                assert(out@.map_values(|d: Dep| d@) =~= pre.push(dv[i as int]));
                assert(out@.map_values(|d: Dep| d@) + deps_remove_parent_edges(
                    dv.skip(i + 1),
                    c@,
                ) =~= pre + deps_remove_parent_edges(s, c@));
            }
        }
        i = i + 1;
    }
    proof {
        assert(dv.skip(dv.len() as int).len() == 0);
        assert(out@.map_values(|d: Dep| d@) =~= deps_remove_parent_edges(dv, c@));
    }
    out
}

/// Sets or replaces the parent of `child`. Fails `SelfReference` when child
/// and parent resolve to the same item, and `CycleDetected` when `child`
/// already appears in the ancestor chain of `parent`; otherwise any existing
/// parent edge of `child` is replaced by the new one.
pub fn set_parent(store: &mut Store, child: &String, parent: &String) -> (r: Result<
    (),
    TrackError,
>)
    ensures
        final(store)@.items == old(store)@.items,
        match r {
            Ok(()) => ({
                let c = resolved(old(store)@.items, child@).unwrap();
                let p = resolved(old(store)@.items, parent@).unwrap();
                &&& resolved(old(store)@.items, child@) is Some
                &&& resolved(old(store)@.items, parent@) is Some
                &&& c != p
                &&& !(exists|n: nat| 1 <= n && anc_n(old(store)@.deps, p, n) == Some(c))
                &&& final(store)@.deps == deps_remove_parent_edges(old(store)@.deps, c).push(
                    DepView { from_id: c, to_id: p, dep_type: crate::model::DepType::Parent },
                )
            }),
            Err(TrackError::SelfReference) => ({
                &&& resolved(old(store)@.items, child@) is Some
                &&& resolved(old(store)@.items, parent@) is Some
                &&& resolved(old(store)@.items, child@) == resolved(old(store)@.items, parent@)
                &&& final(store)@ == old(store)@
            }),
            Err(TrackError::CycleDetected) => ({
                let c = resolved(old(store)@.items, child@).unwrap();
                let p = resolved(old(store)@.items, parent@).unwrap();
                &&& resolved(old(store)@.items, child@) is Some
                &&& resolved(old(store)@.items, parent@) is Some
                &&& c != p
                &&& exists|n: nat| 1 <= n && anc_n(old(store)@.deps, p, n) == Some(c)
                &&& final(store)@ == old(store)@
            }),
            Err(TrackError::NotFound(_)) => (resolution_missing(old(store)@.items, child@) || (
            resolved(old(store)@.items, child@) is Some && resolution_missing(
                old(store)@.items,
                parent@,
            ))) && final(store)@ == old(store)@,
            Err(TrackError::AmbiguousPrefix(_, _)) => (resolution_ambiguous(
                old(store)@.items,
                child@,
            ) || (resolved(old(store)@.items, child@) is Some && resolution_ambiguous(
                old(store)@.items,
                parent@,
            ))) && final(store)@ == old(store)@,
            Err(_) => false,
        },
{
    let c = match resolve_id(store, child) {
        Ok(c) => c,
        Err(e) => {
            return Err(e);
        },
    };
    let p = match resolve_id(store, parent) {
        Ok(p) => p,
        Err(e) => {
            return Err(e);
        },
    };
    if str_eq(c.as_str(), p.as_str()) {
        return Err(TrackError::SelfReference);
    }
    if parent_chain_contains(store, &p, &c) {
        return Err(TrackError::CycleDetected);
    }
    let ghost cv = c@;
    let ghost pv = p@;
    let mut nd = retain_non_parent_edges(&store.deps, &c);
    nd.push(Dep { from_id: c, to_id: p, dep_type: crate::model::DepType::Parent });
    proof {
        assert(nd@.map_values(|d: Dep| d@) =~= deps_remove_parent_edges(
            old(store)@.deps,
            cv,
        ).push(DepView { from_id: cv, to_id: pv, dep_type: crate::model::DepType::Parent }));
    }
    store.deps = nd;
    Ok(())
}

/// An edge from `f` to `t` (of either kind) exists.
pub open spec fn pair_exists(deps: Seq<DepView>, f: Seq<char>, t: Seq<char>) -> bool {
    exists|i: int| 0 <= i < deps.len() && deps[i].from_id == f && #[trigger] deps[i].to_id == t
}

/// Adds a blocking edge from `blocker` to `blocked`. Fails `SelfReference`
/// when the two resolve to the same item and `DuplicateDependency` when the
/// exact edge already exists.
pub fn add_blocking_dep(store: &mut Store, blocker: &String, blocked: &String) -> (r: Result<
    (),
    TrackError,
>)
    ensures
        final(store)@.items == old(store)@.items,
        match r {
            Ok(()) => ({
                let b = resolved(old(store)@.items, blocker@).unwrap();
                let d = resolved(old(store)@.items, blocked@).unwrap();
                let e = DepView { from_id: b, to_id: d, dep_type: crate::model::DepType::Blocks };
                &&& resolved(old(store)@.items, blocker@) is Some
                &&& resolved(old(store)@.items, blocked@) is Some
                &&& b != d
                &&& !has_dep(old(store)@.deps, e)
                &&& final(store)@.deps == old(store)@.deps.push(e)
            }),
            Err(TrackError::SelfReference) => ({
                &&& resolved(old(store)@.items, blocker@) is Some
                &&& resolved(old(store)@.items, blocker@) == resolved(old(store)@.items, blocked@)
                &&& final(store)@ == old(store)@
            }),
            Err(TrackError::DuplicateDependency) => ({
                let b = resolved(old(store)@.items, blocker@).unwrap();
                let d = resolved(old(store)@.items, blocked@).unwrap();
                &&& resolved(old(store)@.items, blocker@) is Some
                &&& resolved(old(store)@.items, blocked@) is Some
                &&& b != d
                &&& has_dep(
                    old(store)@.deps,
                    DepView { from_id: b, to_id: d, dep_type: crate::model::DepType::Blocks },
                )
                &&& final(store)@ == old(store)@
            }),
            Err(TrackError::NotFound(_)) => (resolution_missing(old(store)@.items, blocker@) || (
            resolved(old(store)@.items, blocker@) is Some && resolution_missing(
                old(store)@.items,
                blocked@,
            ))) && final(store)@ == old(store)@,
            Err(TrackError::AmbiguousPrefix(_, _)) => (resolution_ambiguous(
                old(store)@.items,
                blocker@,
            ) || (resolved(old(store)@.items, blocker@) is Some && resolution_ambiguous(
                old(store)@.items,
                blocked@,
            ))) && final(store)@ == old(store)@,
            Err(_) => false,
        },
{
    let b = match resolve_id(store, blocker) {
        Ok(b) => b,
        Err(e) => {
            return Err(e);
        },
    };
    let d = match resolve_id(store, blocked) {
        Ok(d) => d,
        Err(e) => {
            return Err(e);
        },
    };
    if str_eq(b.as_str(), d.as_str()) {
        return Err(TrackError::SelfReference);
    }
    let e = Dep { from_id: b, to_id: d, dep_type: crate::model::DepType::Blocks };
    let mut i: usize = 0;
    while i < store.deps.len()
        invariant
            i <= store@.deps.len(),
            store@ == old(store)@,
            resolved(old(store)@.items, blocker@) == Some(e@.from_id),
            resolved(old(store)@.items, blocked@) == Some(e@.to_id),
            e@.from_id != e@.to_id,
            e@.dep_type == crate::model::DepType::Blocks,
            forall|k: int| 0 <= k < i ==> store@.deps[k] != e@,
        decreases store@.deps.len() - i,
    {
        if crate::model::dep_eq(&store.deps[i], &e) {
            proof {
                assert(has_dep(old(store)@.deps, e@)) by {
                    assert(old(store)@.deps[i as int] == e@);
                }
            }
            return Err(TrackError::DuplicateDependency);
        }
        i = i + 1;
    }
    let ghost ev = e@;
    store.deps.push(e);
    proof {
        assert(final(store)@.deps =~= old(store)@.deps.push(ev));
    }
    Ok(())
}

/// Rebuilds the edge vector, dropping every edge from `f` to `t`.
fn retain_without_pair(deps: &Vec<Dep>, f: &String, t: &String) -> (r: Vec<Dep>)
    ensures
        r@.map_values(|d: Dep| d@) == deps_remove_pair(deps@.map_values(|d: Dep| d@), f@, t@),
{
    let ghost dv = deps@.map_values(|d: Dep| d@);
    let mut out: Vec<Dep> = Vec::new();
    let mut i: usize = 0;
    proof {
        assert(dv.skip(0) =~= dv);
        assert(out@.map_values(|d: Dep| d@) + deps_remove_pair(dv.skip(0), f@, t@)
            =~= deps_remove_pair(dv, f@, t@));
    }
    while i < deps.len()
        invariant
            i <= dv.len(),
            deps@.map_values(|d: Dep| d@) == dv,
            out@.map_values(|d: Dep| d@) + deps_remove_pair(dv.skip(i as int), f@, t@)
                == deps_remove_pair(dv, f@, t@),
        decreases dv.len() - i,
    {
        let ghost pre = out@.map_values(|d: Dep| d@);
        let d = &deps[i];
        if !(str_eq(d.from_id.as_str(), f.as_str()) && str_eq(d.to_id.as_str(), t.as_str())) {
            out.push(d.clone());
        }
        proof {
            let s = dv.skip(i as int);
            assert(s[0] == dv[i as int]);
            assert(s.drop_first() =~= dv.skip(i + 1));
            if dv[i as int].from_id == f@ && dv[i as int].to_id == t@ {
                assert(deps_remove_pair(s, f@, t@) == deps_remove_pair(dv.skip(i + 1), f@, t@));
            } else {
                assert(deps_remove_pair(s, f@, t@) =~= seq![dv[i as int]] + deps_remove_pair(
                    dv.skip(i + 1),
                    f@,
                    t@,
                ));
                assert(out@.map_values(|d: Dep| d@) =~= pre.push(dv[i as int]));
                assert(out@.map_values(|d: Dep| d@) + deps_remove_pair(dv.skip(i + 1), f@, t@)
                    =~= pre + deps_remove_pair(s, f@, t@));
            }
        }
        i = i + 1;
    }
    proof {
        assert(dv.skip(dv.len() as int).len() == 0);
        assert(out@.map_values(|d: Dep| d@) =~= deps_remove_pair(dv, f@, t@));
    }
    out
}

/// Removes every dependency edge from `from` to `to`, of either kind. Fails
/// `NotFound` when no such edge exists.
pub fn remove_dep(store: &mut Store, from: &String, to: &String) -> (r: Result<(), TrackError>)
    ensures
        final(store)@.items == old(store)@.items,
        match r {
            Ok(()) => ({
                let f = resolved(old(store)@.items, from@).unwrap();
                let t = resolved(old(store)@.items, to@).unwrap();
                &&& resolved(old(store)@.items, from@) is Some
                &&& resolved(old(store)@.items, to@) is Some
                &&& pair_exists(old(store)@.deps, f, t)
                &&& final(store)@.deps == deps_remove_pair(old(store)@.deps, f, t)
            }),
            Err(TrackError::NotFound(_)) => ({
                ||| (resolution_missing(old(store)@.items, from@) || (resolved(
                    old(store)@.items,
                    from@,
                ) is Some && resolution_missing(old(store)@.items, to@))) && final(store)@ == old(
                    store,
                )@
                ||| ({
                    let f = resolved(old(store)@.items, from@).unwrap();
                    let t = resolved(old(store)@.items, to@).unwrap();
                    &&& resolved(old(store)@.items, from@) is Some
                    &&& resolved(old(store)@.items, to@) is Some
                    &&& !pair_exists(old(store)@.deps, f, t)
                    &&& final(store)@ == old(store)@
                })
            }),
            Err(TrackError::AmbiguousPrefix(_, _)) => (resolution_ambiguous(
                old(store)@.items,
                from@,
            ) || (resolved(old(store)@.items, from@) is Some && resolution_ambiguous(
                old(store)@.items,
                to@,
            ))) && final(store)@ == old(store)@,
            Err(_) => false,
        },
{
    let f = match resolve_id(store, from) {
        Ok(f) => f,
        Err(e) => {
            return Err(e);
        },
    };
    let t = match resolve_id(store, to) {
        Ok(t) => t,
        Err(e) => {
            return Err(e);
        },
    };
    let mut found = false;
    let mut i: usize = 0;
    while i < store.deps.len()
        invariant
            i <= store@.deps.len(),
            store@ == old(store)@,
            found ==> pair_exists(store@.deps, f@, t@),
            !found ==> forall|k: int|
                0 <= k < i ==> !(store@.deps[k].from_id == f@ && #[trigger] store@.deps[k].to_id
                    == t@),
        decreases store@.deps.len() - i,
    {
        let d = &store.deps[i];
        if str_eq(d.from_id.as_str(), f.as_str()) && str_eq(d.to_id.as_str(), t.as_str()) {
            proof {
                assert(store@.deps[i as int].from_id == f@ && store@.deps[i as int].to_id == t@);
            }
            found = true;
        }
        i = i + 1;
    }
    if !found {
        let mut m = String::new();
        m.append("no dependency from '");
        m.append(f.as_str());
        m.append("' to '");
        m.append(t.as_str());
        m.append("'");
        return Err(TrackError::NotFound(m));
    }
    let nd = retain_without_pair(&store.deps, &f, &t);
    store.deps = nd;
    Ok(())
}

/// Rebuilds the edge vector, dropping every edge that mentions `x`.
fn retain_without_id(deps: &Vec<Dep>, x: &String) -> (r: Vec<Dep>)
    ensures
        r@.map_values(|d: Dep| d@) == deps_remove_id(deps@.map_values(|d: Dep| d@), x@),
{
    let ghost dv = deps@.map_values(|d: Dep| d@);
    let mut out: Vec<Dep> = Vec::new();
    let mut i: usize = 0;
    proof {
        assert(dv.skip(0) =~= dv);
        assert(out@.map_values(|d: Dep| d@) + deps_remove_id(dv.skip(0), x@) =~= deps_remove_id(
            dv,
            x@,
        ));
    }
    while i < deps.len()
        invariant
            i <= dv.len(),
            deps@.map_values(|d: Dep| d@) == dv,
            out@.map_values(|d: Dep| d@) + deps_remove_id(dv.skip(i as int), x@)
                == deps_remove_id(dv, x@),
        decreases dv.len() - i,
    {
        let ghost pre = out@.map_values(|d: Dep| d@);
        let d = &deps[i];
        if !(str_eq(d.from_id.as_str(), x.as_str()) || str_eq(d.to_id.as_str(), x.as_str())) {
            out.push(d.clone());
        }
        proof {
            let s = dv.skip(i as int);
            assert(s[0] == dv[i as int]);
            assert(s.drop_first() =~= dv.skip(i + 1));
            if dv[i as int].from_id == x@ || dv[i as int].to_id == x@ {
                assert(deps_remove_id(s, x@) == deps_remove_id(dv.skip(i + 1), x@));
            } else {
                assert(deps_remove_id(s, x@) =~= seq![dv[i as int]] + deps_remove_id(
                    dv.skip(i + 1),
                    x@,
                ));
                assert(out@.map_values(|d: Dep| d@) =~= pre.push(dv[i as int]));
                assert(out@.map_values(|d: Dep| d@) + deps_remove_id(dv.skip(i + 1), x@) =~= pre
                    + deps_remove_id(s, x@));
            }
        }
        i = i + 1;
    }
    proof {
        assert(dv.skip(dv.len() as int).len() == 0);
        assert(out@.map_values(|d: Dep| d@) =~= deps_remove_id(dv, x@));
    }
    out
}

/// What remains after removing edges mentioning `x`: exactly the edges that
/// do not mention `x`, in their original order.
pub proof fn lemma_deps_remove_id_props(deps: Seq<DepView>, x: Seq<char>)
    ensures
        forall|j: int|
            0 <= j < deps_remove_id(deps, x).len() ==> (#[trigger] deps_remove_id(deps, x)[j]).from_id
                != x && deps_remove_id(deps, x)[j].to_id != x && has_dep(
                deps,
                deps_remove_id(deps, x)[j],
            ),
        forall|i: int|
            0 <= i < deps.len() && (#[trigger] deps[i]).from_id != x && deps[i].to_id != x
                ==> has_dep(deps_remove_id(deps, x), deps[i]),
    decreases deps.len(),
{
    if deps.len() > 0 {
        let rest = deps.drop_first();
        lemma_deps_remove_id_props(rest, x);
        let rr = deps_remove_id(rest, x);
        let full = deps_remove_id(deps, x);
        if deps[0].from_id == x || deps[0].to_id == x {
            assert(full == rr);
            assert forall|j: int| 0 <= j < full.len() implies (#[trigger] full[j]).from_id != x
                && full[j].to_id != x && has_dep(deps, full[j]) by {
                let w = choose|k: int| 0 <= k < rest.len() && rest[k] == rr[j];
                assert(deps[w + 1] == rr[j]);
            }
            assert forall|i: int|
                0 <= i < deps.len() && (#[trigger] deps[i]).from_id != x && deps[i].to_id
                    != x implies has_dep(full, deps[i]) by {
                assert(i >= 1);
                assert(rest[i - 1] == deps[i]);
            }
        } else {
            assert(full =~= seq![deps[0]] + rr);
            assert forall|j: int| 0 <= j < full.len() implies (#[trigger] full[j]).from_id != x
                && full[j].to_id != x && has_dep(deps, full[j]) by {
                if j == 0 {
                    assert(full[0] == deps[0]);
                } else {
                    assert(full[j] == rr[j - 1]);
                    let w = choose|k: int| 0 <= k < rest.len() && rest[k] == rr[j - 1];
                    assert(deps[w + 1] == rr[j - 1]);
                }
            }
            assert forall|i: int|
                0 <= i < deps.len() && (#[trigger] deps[i]).from_id != x && deps[i].to_id
                    != x implies has_dep(full, deps[i]) by {
                if i == 0 {
                    assert(full[0] == deps[0]);
                } else {
                    assert(rest[i - 1] == deps[i]);
                    assert(has_dep(rr, deps[i]));
                    let w = choose|k: int| 0 <= k < rr.len() && rr[k] == deps[i];
                    assert(full[w + 1] == deps[i]);
                }
            }
        }
    }
}

/// Deletes an item and, atomically with it, every edge that mentions it at
/// either endpoint, so no surviving edge references the removed item.
pub fn delete_item(store: &mut Store, query: &String) -> (r: Result<(), TrackError>)
    requires
        store_wf(old(store)@),
    ensures
        store_wf(final(store)@),
        match r {
            Ok(()) => ({
                let c = resolved(old(store)@.items, query@).unwrap();
                &&& resolved(old(store)@.items, query@) is Some
                &&& !has_id(final(store)@.items, c)
                &&& final(store)@.items.len() == old(store)@.items.len() - 1
                &&& forall|id: Seq<char>|
                    id != c ==> #[trigger] has_id(final(store)@.items, id) == has_id(
                        old(store)@.items,
                        id,
                    )
                &&& forall|id: Seq<char>|
                    id != c && has_id(final(store)@.items, id) ==> #[trigger] item_of(
                        final(store)@.items,
                        id,
                    ) == item_of(old(store)@.items, id)
                &&& final(store)@.deps == deps_remove_id(old(store)@.deps, c)
            }),
            Err(TrackError::NotFound(_)) => (resolved(old(store)@.items, query@) is None)
                && final(store)@ == old(store)@,
            Err(TrackError::AmbiguousPrefix(_, _)) => (resolved(old(store)@.items, query@)
                is None) && final(store)@ == old(store)@,
            Err(_) => false,
        },
{
    let id = match resolve_id(store, query) {
        Ok(id) => id,
        Err(e) => {
            return Err(e);
        },
    };
    let ghost pre = store@.items;
    let i = match store.find_index(&id) {
        Some(i) => i,
        None => {
            // resolve_id only returns ids of existing items
            proof {
                assert(false);
            }
            return Err(TrackError::NotFound(id));
        },
    };
    self_remove_item(store, i);
    proof {
        lemma_remove_lookup(pre, store@.items, i as int, id@);
    }
    let nd = retain_without_id(&store.deps, &id);
    store.deps = nd;
    Ok(())
}

/// Removes the item at index `i`, keeping the rest in order.
fn self_remove_item(store: &mut Store, i: usize)
    requires
        i < old(store)@.items.len(),
    ensures
        final(store)@.items == old(store)@.items.remove(i as int),
        final(store)@.deps == old(store)@.deps,
{
    let _ = store.items.remove(i);
    proof {
        assert(final(store)@.items =~= old(store)@.items.remove(i as int));
    }
}

/// The ids of all items, in document order.
pub open spec fn ids_of(items: Seq<ItemView>) -> Seq<Seq<char>> {
    items.map_values(|it: ItemView| it.id)
}

/// Collects every item id.
fn collect_ids(store: &Store) -> (r: Vec<String>)
    ensures
        r@.map_values(|s: String| s@) == ids_of(store@.items),
{
    let mut out: Vec<String> = Vec::new();
    let mut i: usize = 0;
    while i < store.items.len()
        invariant
            i <= store@.items.len(),
            out@.len() == i,
            forall|k: int| 0 <= k < i ==> out@[k]@ == store@.items[k].id,
        decreases store@.items.len() - i,
    {
        out.push(store.items[i].id.clone());
        i = i + 1;
    }
    proof {
        assert(out@.map_values(|s: String| s@) =~= ids_of(store@.items));
    }
    out
}

/// Creates a new item with a fresh id, status `Open`, no claimant, and equal
/// creation and update timestamps; when a parent is given it must resolve to
/// an existing item, and one parent edge from the new item to it is added.
pub fn create_item(
    store: &mut Store,
    title: String,
    item_type: crate::model::ItemType,
    priority: u8,
    description: Option<String>,
    parent_id: Option<String>,
) -> (r: Result<String, TrackError>)
    requires
        store_wf(old(store)@),
    ensures
        store_wf(final(store)@),
        match r {
            Ok(id) => ({
                &&& crate::ident::is_item_id(id@)
                &&& !has_id(old(store)@.items, id@)
                &&& has_id(final(store)@.items, id@)
                &&& item_of(final(store)@.items, id@) == (ItemView {
                    id: id@,
                    title: title@,
                    description: crate::model::opt_str_view(description),
                    item_type: item_type,
                    status: crate::model::Status::Open,
                    priority: priority,
                    claimed_by: None,
                    created_at: item_of(final(store)@.items, id@).created_at,
                    updated_at: item_of(final(store)@.items, id@).created_at,
                })
                &&& forall|x: Seq<char>|
                    x != id@ ==> #[trigger] has_id(final(store)@.items, x) == has_id(
                        old(store)@.items,
                        x,
                    )
                &&& forall|x: Seq<char>|
                    x != id@ && has_id(final(store)@.items, x) ==> #[trigger] item_of(
                        final(store)@.items,
                        x,
                    ) == item_of(old(store)@.items, x)
                &&& match parent_id {
                    None => final(store)@.deps == old(store)@.deps,
                    Some(p) => ({
                        let rp = resolved(old(store)@.items, p@).unwrap();
                        &&& resolved(old(store)@.items, p@) is Some
                        &&& rp != id@
                        &&& final(store)@.deps == old(store)@.deps.push(
                            DepView {
                                from_id: id@,
                                to_id: rp,
                                dep_type: crate::model::DepType::Parent,
                            },
                        )
                    }),
                }
            }),
            Err(TrackError::NotFound(_)) => (parent_id matches Some(p) && resolution_missing(
                old(store)@.items,
                p@,
            )) && final(store)@ == old(store)@,
            Err(TrackError::AmbiguousPrefix(_, _)) => (parent_id matches Some(p)
                && resolution_ambiguous(old(store)@.items, p@)) && final(store)@ == old(store)@,
            Err(TrackError::IOFailure) => final(store)@ == old(store)@,
            Err(_) => false,
        },
{
    let resolved_parent: Option<String> = match &parent_id {
        Some(pid) => match resolve_id(store, pid) {
            Ok(rp) => Some(rp),
            Err(e) => {
                return Err(e);
            },
        },
        None => None,
    };
    let existing = collect_ids(store);
    let id = match crate::ident::generate_id(&title, &existing) {
        Some(id) => id,
        None => {
            return Err(TrackError::IOFailure);
        },
    };
    proof {
        // A fresh id is no item's id.
        if has_id(old(store)@.items, id@) {
            let k = choose|k: int|
                0 <= k < old(store)@.items.len() && old(store)@.items[k].id == id@;
            assert(existing@.map_values(|s: String| s@)[k] == id@);
        }
    }
    let now = crate::clock::now_millis();
    let item = crate::model::Item {
        id: id.clone(),
        title,
        description,
        item_type,
        status: crate::model::Status::Open,
        priority,
        claimed_by: None,
        created_at: now,
        updated_at: now,
    };
    store.put_item(item);
    if let Some(rp) = resolved_parent {
        let ghost rpv = rp@;
        store.deps.push(Dep { from_id: id.clone(), to_id: rp, dep_type: crate::model::DepType::Parent });
        proof {
            assert(final(store)@.deps =~= old(store)@.deps.push(
                DepView { from_id: id@, to_id: rpv, dep_type: crate::model::DepType::Parent },
            ));
        }
    }
    Ok(id)
}

/// A child of `c` that exists and is not closed.
pub open spec fn open_child_exists(s: crate::model::StoreView, c: Seq<char>) -> bool {
    exists|k: int|
        0 <= k < children_of(s.deps, c).len() && has_id(
            s.items,
            #[trigger] children_of(s.deps, c)[k],
        ) && item_of(s.items, children_of(s.deps, c)[k]).status != crate::model::Status::Closed
}

/// Closes an item: fails `HasOpenChildren` while any existing child is not
/// closed; otherwise sets the status to `Closed`, clears the claimant, and
/// moves `updated_at` forward, never backward.
pub fn close_item(store: &mut Store, query: &String) -> (r: Result<(), TrackError>)
    requires
        store_wf(old(store)@),
    ensures
        store_wf(final(store)@),
        final(store)@.deps == old(store)@.deps,
        match r {
            Ok(()) => ({
                let c = resolved(old(store)@.items, query@).unwrap();
                let before = item_of(old(store)@.items, c);
                let after = item_of(final(store)@.items, c);
                &&& resolved(old(store)@.items, query@) is Some
                &&& !open_child_exists(old(store)@, c)
                &&& has_id(final(store)@.items, c)
                &&& after == (ItemView {
                    status: crate::model::Status::Closed,
                    claimed_by: None,
                    updated_at: after.updated_at,
                    ..before
                })
                &&& after.updated_at >= before.updated_at
                &&& forall|x: Seq<char>|
                    x != c ==> #[trigger] has_id(final(store)@.items, x) == has_id(
                        old(store)@.items,
                        x,
                    )
                &&& forall|x: Seq<char>|
                    x != c && has_id(final(store)@.items, x) ==> #[trigger] item_of(
                        final(store)@.items,
                        x,
                    ) == item_of(old(store)@.items, x)
            }),
            Err(TrackError::HasOpenChildren) => ({
                let c = resolved(old(store)@.items, query@).unwrap();
                &&& resolved(old(store)@.items, query@) is Some
                &&& open_child_exists(old(store)@, c)
                &&& final(store)@ == old(store)@
            }),
            Err(TrackError::NotFound(_)) => resolution_missing(old(store)@.items, query@) && final(store)@
                == old(store)@,
            Err(TrackError::AmbiguousPrefix(_, _)) => resolution_ambiguous(
                old(store)@.items,
                query@,
            ) && final(store)@ == old(store)@,
            Err(_) => false,
        },
{
    let id = match resolve_id(store, query) {
        Ok(id) => id,
        Err(e) => {
            return Err(e);
        },
    };
    let children = get_children(store, &id);
    let ghost cv = children_of(store@.deps, id@);
    let mut j: usize = 0;
    while j < children.len()
        invariant
            j <= children@.len(),
            store@ == old(store)@,
            store_wf(store@),
            children@.map_values(|s: String| s@) == cv,
            cv == children_of(store@.deps, id@),
            resolved(old(store)@.items, query@) == Some(id@),
            has_id(store@.items, id@),
            forall|k: int|
                0 <= k < j ==> !(has_id(store@.items, #[trigger] cv[k]) && item_of(
                    store@.items,
                    cv[k],
                ).status != crate::model::Status::Closed),
        decreases children@.len() - j,
    {
        match store.get_item(&children[j]) {
            Some(child) => {
                let is_open = match child.status {
                    crate::model::Status::Open => true,
                    crate::model::Status::Closed => false,
                };
                if is_open {
                    proof {
                        assert(has_id(store@.items, cv[j as int]));
                        assert(item_of(store@.items, cv[j as int]).status
                            != crate::model::Status::Closed);
                    }
                    return Err(TrackError::HasOpenChildren);
                }
            },
            None => {},
        }
        j = j + 1;
    }
    let before = match store.get_item(&id) {
        Some(it) => it.clone(),
        None => {
            proof {
                assert(false);
            }
            return Err(TrackError::NotFound(id));
        },
    };
    let now = crate::clock::now_millis();
    let stamped = crate::clock::later_of(before.updated_at, now);
    let mut updated = before;
    updated.status = crate::model::Status::Closed;
    updated.claimed_by = None;
    updated.updated_at = stamped;
    store.put_item(updated);
    Ok(())
}

/// Whether a listing shows this item: closed items are hidden unless `all`
/// is set or a status filter is given, and the type and status filters must
/// both accept it.
pub open spec fn should_show_spec(
    it: ItemView,
    all: bool,
    type_filter: Option<crate::model::ItemType>,
    status_filter: Option<crate::model::Status>,
) -> bool {
    &&& !(!all && status_filter is None && it.status == crate::model::Status::Closed)
    &&& match type_filter {
        Some(t) => it.item_type == t,
        None => true,
    }
    &&& match status_filter {
        Some(st) => it.status == st,
        None => true,
    }
}

/// Decides whether a listing shows this item.
pub fn should_show(
    item: &crate::model::Item,
    all: bool,
    type_filter: Option<crate::model::ItemType>,
    status_filter: Option<crate::model::Status>,
) -> (r: bool)
    ensures
        r == should_show_spec(item@, all, type_filter, status_filter),
{
    if !all && status_filter.is_none() && item.status == crate::model::Status::Closed {
        return false;
    }
    if let Some(t) = type_filter {
        if item.item_type != t {
            return false;
        }
    }
    if let Some(st) = status_filter {
        if item.status != st {
            return false;
        }
    }
    true
}

/// Every existing blocker of `id` is closed, and no blocker is missing.
pub open spec fn blockers_all_closed(s: crate::model::StoreView, id: Seq<char>) -> bool {
    forall|k: int|
        0 <= k < blockers_of(s.deps, id).len() ==> has_id(
            s.items,
            #[trigger] blockers_of(s.deps, id)[k],
        ) && item_of(s.items, blockers_of(s.deps, id)[k]).status == crate::model::Status::Closed
}

/// An item is ready: open, unclaimed, and gated by no blocker that is missing
/// or not yet closed.
#[verifier::opaque]
pub open spec fn is_ready(s: crate::model::StoreView, it: ItemView) -> bool {
    &&& it.status == crate::model::Status::Open
    &&& it.claimed_by is None
    &&& blockers_all_closed(s, it.id)
}

/// Decides readiness of one item.
fn check_ready(store: &Store, item: &crate::model::Item) -> (r: bool)
    requires
        store_wf(store@),
    ensures
        r == is_ready(store@, item@),
{
    proof {
        reveal(is_ready);
    }
    let is_open = match item.status {
        crate::model::Status::Open => true,
        crate::model::Status::Closed => false,
    };
    if !is_open {
        return false;
    }
    if item.claimed_by.is_some() {
        return false;
    }
    let blockers = get_blockers(store, &item.id);
    let ghost bv = blockers_of(store@.deps, item@.id);
    let mut j: usize = 0;
    while j < blockers.len()
        invariant
            j <= blockers@.len(),
            store_wf(store@),
            blockers@.map_values(|s: String| s@) == bv,
            bv == blockers_of(store@.deps, item@.id),
            item@.status == crate::model::Status::Open,
            item@.claimed_by is None,
            forall|k: int|
                0 <= k < j ==> has_id(store@.items, #[trigger] bv[k]) && item_of(
                    store@.items,
                    bv[k],
                ).status == crate::model::Status::Closed,
        decreases blockers@.len() - j,
    {
        match store.get_item(&blockers[j]) {
            Some(b) => {
                let closed = match b.status {
                    crate::model::Status::Open => false,
                    crate::model::Status::Closed => true,
                };
                if !closed {
                    proof {
                        reveal(is_ready);
                        assert(b@ == item_of(store@.items, bv[j as int]));
                        assert(!(has_id(store@.items, blockers_of(store@.deps, item@.id)[j as int])
                            && item_of(store@.items, blockers_of(store@.deps, item@.id)[j as int]).status
                            == crate::model::Status::Closed));
                    }
                    return false;
                }
            },
            None => {
                proof {
                    reveal(is_ready);
                    assert(!(has_id(store@.items, blockers_of(store@.deps, item@.id)[j as int])
                        && item_of(store@.items, blockers_of(store@.deps, item@.id)[j as int]).status
                        == crate::model::Status::Closed));
                }
                return false;
            },
        }
        j = j + 1;
    }
    proof {
        reveal(is_ready);
    }
    true
}

/// `a` comes before `b` in the ready listing: lower priority value first,
/// ties broken by id.
pub open spec fn ready_order(a: ItemView, b: ItemView) -> bool {
    a.priority < b.priority || (a.priority == b.priority && crate::strutil::lex_lt(a.id, b.id))
}

/// The facts carried while gathering ready items priority by priority:
/// `srcs[j]` is the item index that produced `out[j]`, entries are ready, and
/// every ready item with a priority below the cursor has been taken.
pub open spec fn gather_inv(
    s: crate::model::StoreView,
    outv: Seq<crate::model::Item>,
    srcs: Seq<int>,
    pri: int,
) -> bool {
    &&& srcs.len() == outv.len()
    &&& forall|j: int| 0 <= j < outv.len() ==> 0 <= #[trigger] srcs[j] < s.items.len()
    &&& forall|j: int| 0 <= j < outv.len() ==> (#[trigger] outv[j]@) == s.items[srcs[j]]
    &&& forall|j: int| 0 <= j < outv.len() ==> is_ready(s, #[trigger] outv[j]@)
    &&& forall|j: int| 0 <= j < outv.len() ==> (#[trigger] outv[j]@).priority < pri
    &&& forall|k: int|
        0 <= k < s.items.len() && is_ready(s, #[trigger] s.items[k]) && s.items[k].priority < pri
            ==> exists|j: int| 0 <= j < srcs.len() && srcs[j] == k
    &&& forall|a: int, b: int| 0 <= a < b < outv.len() ==> ready_order(outv[a]@, outv[b]@)
}

/// Gathers, in id order, every ready item of one priority value.
#[verifier::spinoff_prover]
fn gather_priority(store: &Store, pri: u16, out: &mut Vec<crate::model::Item>, srcs0: Ghost<
    Seq<int>,
>) -> (srcs1: Ghost<Seq<int>>)
    requires
        pri <= 255,
        store_wf(store@),
        gather_inv(store@, old(out)@, srcs0@, pri as int),
    ensures
        gather_inv(store@, final(out)@, srcs1@, pri + 1),
{
    let ghost mut srcs: Seq<int> = srcs0@;
    let mut i: usize = 0;
    while i < store.items.len()
        invariant
            pri <= 255,
            i <= store@.items.len(),
            store_wf(store@),
            srcs.len() == out@.len(),
            forall|j: int| 0 <= j < out@.len() ==> 0 <= #[trigger] srcs[j] < store@.items.len(),
            forall|j: int|
                0 <= j < out@.len() ==> (#[trigger] out@[j]@) == store@.items[srcs[j]],
            forall|j: int| 0 <= j < out@.len() ==> is_ready(store@, #[trigger] out@[j]@),
            forall|j: int|
                0 <= j < out@.len() ==> (#[trigger] out@[j]@).priority < pri || (out@[j]@.priority
                    == pri && srcs[j] < i),
            forall|k: int|
                0 <= k < store@.items.len() && is_ready(store@, #[trigger] store@.items[k]) && (
                store@.items[k].priority < pri || (store@.items[k].priority == pri && k < i))
                    ==> exists|j: int| 0 <= j < srcs.len() && srcs[j] == k,
            forall|a: int, b: int| 0 <= a < b < out@.len() ==> ready_order(out@[a]@, out@[b]@),
        decreases store@.items.len() - i,
    {
        let ghost srcs_at_entry = srcs;
        let it = &store.items[i];
        let ready_now = check_ready(store, it);
        let selected = it.priority as u16 == pri && ready_now;
        if selected {
            proof {
                let iv = store@.items[i as int];
                // The new entry follows everything collected: lower priority
                // values came first, and within this priority value earlier
                // positions carry smaller ids.
                assert forall|j: int| 0 <= j < out@.len() implies ready_order(out@[j]@, iv) by {
                    assert(out@[j]@ == store@.items[srcs[j]]);
                    assert(0 <= srcs[j] < store@.items.len());
                    if out@[j]@.priority == pri {
                        assert(srcs[j] < i);
                        assert(crate::strutil::lex_lt(
                            store@.items[srcs[j]].id,
                            store@.items[i as int].id,
                        ));
                    } else {
                        assert(out@[j]@.priority < pri);
                    }
                }
            }
            out.push(it.clone());
            proof {
                srcs = srcs.push(i as int);
                assert(forall|j: int|
                    0 <= j < srcs_at_entry.len() ==> #[trigger] srcs[j] == srcs_at_entry[j]);
                assert(srcs[srcs.len() - 1] == i as int);
                assert(out@[out@.len() - 1]@ == store@.items[i as int]);
            }
        }
        proof {
            assert forall|k: int|
                0 <= k < store@.items.len() && is_ready(store@, #[trigger] store@.items[k]) && (
                store@.items[k].priority < pri || (store@.items[k].priority == pri && k
                    <= i)) implies exists|j: int| 0 <= j < srcs.len() && srcs[j] == k by {
                if k == i as int && store@.items[k].priority == pri {
                    assert(store@.items[i as int] == it@);
                    assert(ready_now);
                    assert(selected);
                    assert(srcs[srcs.len() - 1] == k);
                } else {
                    assert(exists|j: int|
                        0 <= j < srcs_at_entry.len() && srcs_at_entry[j] == k);
                    let w = choose|j: int|
                        0 <= j < srcs_at_entry.len() && srcs_at_entry[j] == k;
                    assert(srcs.len() >= srcs_at_entry.len());
                    assert(srcs[w] == k);
                }
            }
        }
        i = i + 1;
    }
    Ghost(srcs)
}

/// After the gather reaches past the largest priority value, the collected
/// vector meets the ready-listing contract.
#[verifier::spinoff_prover]
proof fn lemma_gather_done(s: crate::model::StoreView, outv: Seq<crate::model::Item>, srcs: Seq<int>)
    requires
        gather_inv(s, outv, srcs, 256),
    ensures
        forall|j: int|
            0 <= j < outv.len() ==> is_ready(s, #[trigger] outv[j]@) && 0 <= srcs[j]
                < s.items.len() && outv[j]@ == s.items[srcs[j]],
        forall|i: int|
            0 <= i < s.items.len() && is_ready(s, #[trigger] s.items[i]) ==> exists|j: int|
                0 <= j < outv.len() && outv[j]@.id == s.items[i].id,
{
    assert forall|i: int|
        0 <= i < s.items.len() && is_ready(s, #[trigger] s.items[i]) implies exists|j: int|
        0 <= j < outv.len() && outv[j]@.id == s.items[i].id by {
        assert(s.items[i].priority < 256);
        let j = choose|j: int| 0 <= j < srcs.len() && srcs[j] == i;
        assert(outv[j]@.id == s.items[i].id);
    }
}

/// Every item that is open, unclaimed, and not gated by a missing or open
/// blocker, sorted ascending by priority with ties broken by id. Items are
/// gathered one priority value at a time, in id order within each, so the
/// listing is sorted by construction.
#[verifier::spinoff_prover]
pub fn ready_items(store: &Store) -> (r: Vec<crate::model::Item>)
    requires
        store_wf(store@),
    ensures
        forall|j: int| 0 <= j < r@.len() ==> is_ready(store@, #[trigger] r@[j]@),
        forall|j: int| 0 <= j < r@.len() ==> store@.items.contains(#[trigger] r@[j]@),
        forall|i: int|
            0 <= i < store@.items.len() && is_ready(store@, #[trigger] store@.items[i]) ==> exists|
                j: int,
            | 0 <= j < r@.len() && r@[j]@.id == store@.items[i].id,
        forall|a: int, b: int| 0 <= a < b < r@.len() ==> ready_order(r@[a]@, r@[b]@),
{
    let mut out: Vec<crate::model::Item> = Vec::new();
    let mut srcs: Ghost<Seq<int>> = Ghost(Seq::empty());
    let mut pri: u16 = 0;
    while pri <= 255
        invariant
            pri <= 256,
            store_wf(store@),
            gather_inv(store@, out@, srcs@, pri as int),
        decreases 256 - pri,
    {
        srcs = gather_priority(store, pri, &mut out, srcs);
        pri = pri + 1;
    }
    proof {
        lemma_gather_done(store@, out@, srcs@);
        assert forall|j: int| 0 <= j < out@.len() implies store@.items.contains(
            #[trigger] out@[j]@,
        ) by {
            assert(out@[j]@ == store@.items[srcs@[j]]);
        }
    }
    out
}

/// The items with no parent edge, in document order.
pub open spec fn roots_of(items: Seq<ItemView>, deps: Seq<DepView>) -> Seq<ItemView>
    decreases items.len(),
{
    if items.len() == 0 {
        Seq::empty()
    } else {
        let rest = roots_of(items.drop_last(), deps);
        if parent_of(deps, items.last().id) is None {
            rest.push(items.last())
        } else {
            rest
        }
    }
}

/// The root items: those with no parent.
pub fn root_items(store: &Store) -> (r: Vec<crate::model::Item>)
    ensures
        r@.map_values(|it: crate::model::Item| it@) == roots_of(store@.items, store@.deps),
{
    let ghost items = store@.items;
    let mut out: Vec<crate::model::Item> = Vec::new();
    let mut i: usize = 0;
    proof {
        assert(items.take(0) =~= Seq::<ItemView>::empty());
    }
    while i < store.items.len()
        invariant
            i <= items.len(),
            store@.items == items,
            out@.map_values(|it: crate::model::Item| it@) == roots_of(
                items.take(i as int),
                store@.deps,
            ),
        decreases items.len() - i,
    {
        let ghost pre = out@.map_values(|it: crate::model::Item| it@);
        let has_parent = match get_parent(store, &store.items[i].id) {
            Some(_) => true,
            None => false,
        };
        if !has_parent {
            out.push(store.items[i].clone());
        }
        proof {
            let t1 = items.take(i + 1);
            assert(t1.drop_last() =~= items.take(i as int));
            assert(t1.last() == items[i as int]);
            if parent_of(store@.deps, items[i as int].id) is None {
                assert(out@.map_values(|it: crate::model::Item| it@) =~= pre.push(
                    items[i as int],
                ));
            }
        }
        i = i + 1;
    }
    proof {
        assert(items.take(items.len() as int) =~= items);
    }
    out
}

/// Removing an index from a sorted item sequence keeps it sorted, drops that
/// id, and leaves every other lookup unchanged.
proof fn lemma_remove_lookup(pre: Seq<ItemView>, post: Seq<ItemView>, i: int, id: Seq<char>)
    requires
        crate::model::items_sorted(pre),
        0 <= i < pre.len(),
        pre[i].id == id,
        post == pre.remove(i),
    ensures
        crate::model::items_sorted(post),
        !has_id(post, id),
        forall|x: Seq<char>| x != id ==> #[trigger] has_id(post, x) == has_id(pre, x),
        forall|x: Seq<char>|
            x != id && has_id(post, x) ==> #[trigger] item_of(post, x) == item_of(pre, x),
{
    assert(post.len() == pre.len() - 1);
    assert(forall|k: int| 0 <= k < i ==> post[k] == pre[k]);
    assert(forall|k: int| i <= k < post.len() ==> post[k] == pre[k + 1]);
    assert forall|a: int, b: int| 0 <= a < b < post.len() implies crate::strutil::lex_lt(
        post[a].id,
        post[b].id,
    ) by {
        let pa = if a < i {
            a
        } else {
            a + 1
        };
        let pb = if b < i {
            b
        } else {
            b + 1
        };
        assert(post[a] == pre[pa]);
        assert(post[b] == pre[pb]);
    }
    assert(!has_id(post, id)) by {
        if has_id(post, id) {
            let k = choose|k: int| 0 <= k < post.len() && post[k].id == id;
            let pk = if k < i {
                k
            } else {
                k + 1
            };
            crate::model::lemma_sorted_id_unique(pre, pk, i);
        }
    }
    assert forall|x: Seq<char>| x != id implies #[trigger] has_id(post, x) == has_id(pre, x) by {
        if has_id(post, x) {
            let k = choose|k: int| 0 <= k < post.len() && post[k].id == x;
            let pk = if k < i {
                k
            } else {
                k + 1
            };
            assert(pre[pk].id == x);
        }
        if has_id(pre, x) {
            let k = choose|k: int| 0 <= k < pre.len() && pre[k].id == x;
            assert(k != i);
            if k < i {
                assert(post[k].id == x);
            } else {
                assert(post[k - 1].id == x);
            }
        }
    }
    assert forall|x: Seq<char>| x != id && has_id(post, x) implies #[trigger] item_of(post, x)
        == item_of(pre, x) by {
        let k1 = choose|k: int| 0 <= k < post.len() && post[k].id == x;
        let pk = if k1 < i {
            k1
        } else {
            k1 + 1
        };
        assert(pre[pk].id == x);
        let k2 = choose|k: int| 0 <= k < pre.len() && pre[k].id == x;
        crate::model::lemma_sorted_id_unique(pre, pk, k2);
    }
}

} // verus!
