//! The merge engine: deterministic three-way reconciliation of two diverged
//! document snapshots against their common ancestor.

use vstd::prelude::*;

use crate::errors::TrackError;
use crate::model::has_id;
use crate::model::item_of;
use crate::model::items_sorted;
use crate::model::opt_str_view;
use crate::model::store_wf;
use crate::model::Dep;
use crate::model::DepView;
use crate::model::Item;
use crate::model::ItemView;
use crate::model::Store;
use crate::model::StoreView;
use crate::ops::has_dep;
use crate::strutil::lemma_lex_lt_asym;
use crate::strutil::lemma_lex_lt_total;
use crate::strutil::lemma_lex_lt_trans;
use crate::strutil::lex_lt;
use crate::strutil::str_eq;
use crate::strutil::str_lt;

verus! {

/// Field-level merge of one item present in ancestor, local, and remote:
/// where local diverged from the ancestor its value wins, else remote's value
/// is taken; the claimant instead prefers remote's change, so the claim that
/// published first survives; `updated_at` takes the later timestamp.
pub open spec fn merge_item_view(b: ItemView, o: ItemView, t: ItemView) -> ItemView {
    ItemView {
        id: o.id,
        title: if o.title != b.title {
            o.title
        } else {
            t.title
        },
        description: if o.description != b.description {
            o.description
        } else {
            t.description
        },
        item_type: if o.item_type != b.item_type {
            o.item_type
        } else {
            t.item_type
        },
        status: if o.status != b.status {
            o.status
        } else {
            t.status
        },
        priority: if o.priority != b.priority {
            o.priority
        } else {
            t.priority
        },
        claimed_by: if t.claimed_by != b.claimed_by {
            t.claimed_by
        } else {
            o.claimed_by
        },
        created_at: o.created_at,
        updated_at: if o.updated_at >= t.updated_at {
            o.updated_at
        } else {
            t.updated_at
        },
    }
}

/// An id survives the merge: an item present in the ancestor survives only if
/// neither side deleted it; an item absent from the ancestor survives if
/// either side added it.
pub open spec fn merged_has(b: Seq<ItemView>, o: Seq<ItemView>, t: Seq<ItemView>, id: Seq<char>) -> bool {
    if has_id(b, id) {
        has_id(o, id) && has_id(t, id)
    } else {
        has_id(o, id) || has_id(t, id)
    }
}

/// The surviving version of an id: field-merged when present everywhere;
/// remote's copy when remote has it (so the first published copy wins an
/// add/add race); else local's addition.
pub open spec fn merged_item(b: Seq<ItemView>, o: Seq<ItemView>, t: Seq<ItemView>, id: Seq<char>) -> ItemView {
    if has_id(b, id) && has_id(o, id) && has_id(t, id) {
        merge_item_view(item_of(b, id), item_of(o, id), item_of(t, id))
    } else if has_id(t, id) {
        item_of(t, id)
    } else {
        item_of(o, id)
    }
}

/// An edge survives the merge: it must be on at least one side, must not have
/// been removed by the other side relative to the ancestor, and both of its
/// endpoints must survive the item merge.
pub open spec fn dep_keep(
    bd: Seq<DepView>,
    od: Seq<DepView>,
    td: Seq<DepView>,
    b: Seq<ItemView>,
    o: Seq<ItemView>,
    t: Seq<ItemView>,
    d: DepView,
) -> bool {
    &&& ((has_dep(od, d) && (!has_dep(bd, d) || has_dep(td, d))) || (has_dep(td, d) && (!has_dep(
        bd,
        d,
    ) || has_dep(od, d))))
    &&& merged_has(b, o, t, d.from_id)
    &&& merged_has(b, o, t, d.to_id)
}

/// Strict order on edges: by `from`, then `to`, then kind (parent first).
pub open spec fn dep_lt(a: DepView, b: DepView) -> bool {
    ||| lex_lt(a.from_id, b.from_id)
    ||| (a.from_id == b.from_id && lex_lt(a.to_id, b.to_id))
    ||| (a.from_id == b.from_id && a.to_id == b.to_id && a.dep_type
        == crate::model::DepType::Parent && b.dep_type == crate::model::DepType::Blocks)
}

/// The edge list is strictly sorted, hence duplicate-free.
pub open spec fn deps_sorted(deps: Seq<DepView>) -> bool {
    forall|i: int, j: int| 0 <= i < j < deps.len() ==> dep_lt(deps[i], deps[j])
}

/// `dep_lt` is total on distinct edges.
proof fn lemma_dep_lt_total(a: DepView, b: DepView)
    requires
        a != b,
    ensures
        dep_lt(a, b) || dep_lt(b, a),
{
    lemma_lex_lt_total(a.from_id, b.from_id);
    lemma_lex_lt_total(a.to_id, b.to_id);
}

/// `dep_lt` is asymmetric.
pub proof fn lemma_dep_lt_asym(a: DepView, b: DepView)
    requires
        dep_lt(a, b),
    ensures
        !dep_lt(b, a),
        a != b,
{
    if lex_lt(a.from_id, b.from_id) {
        lemma_lex_lt_asym(a.from_id, b.from_id);
    } else if a.from_id == b.from_id && lex_lt(a.to_id, b.to_id) {
        lemma_lex_lt_asym(a.to_id, b.to_id);
    }
}

/// `dep_lt` is transitive.
proof fn lemma_dep_lt_trans(a: DepView, b: DepView, c: DepView)
    requires
        dep_lt(a, b),
        dep_lt(b, c),
    ensures
        dep_lt(a, c),
{
    if a.from_id == b.from_id && b.from_id == c.from_id {
        if a.to_id == b.to_id && b.to_id == c.to_id {
        } else if lex_lt(a.to_id, b.to_id) && lex_lt(b.to_id, c.to_id) {
            lemma_lex_lt_trans(a.to_id, b.to_id, c.to_id);
        }
    } else if lex_lt(a.from_id, b.from_id) && lex_lt(b.from_id, c.from_id) {
        lemma_lex_lt_trans(a.from_id, b.from_id, c.from_id);
    }
}

/// The views of a vector of edges.
pub open spec fn deps_view(v: Seq<Dep>) -> Seq<DepView> {
    v.map_values(|x: Dep| x@)
}

/// The views of a vector of ids.
pub open spec fn ids_view(v: Seq<String>) -> Seq<Seq<char>> {
    v.map_values(|s: String| s@)
}

/// Compares two edges in listing order.
fn dep_before(a: &Dep, b: &Dep) -> (r: bool)
    ensures
        r == dep_lt(a@, b@),
{
    if str_lt(&a.from_id, &b.from_id) {
        return true;
    }
    if !str_eq(a.from_id.as_str(), b.from_id.as_str()) {
        return false;
    }
    if str_lt(&a.to_id, &b.to_id) {
        return true;
    }
    if !str_eq(a.to_id.as_str(), b.to_id.as_str()) {
        return false;
    }
    let r = match (a.dep_type, b.dep_type) {
        (crate::model::DepType::Parent, crate::model::DepType::Blocks) => true,
        _ => false,
    };
    r
}

/// Inserts an edge into a strictly `dep_lt`-sorted vector, keeping it sorted
/// and duplicate-free; inserting an edge already present changes nothing.
fn insert_dep_sorted(out: &mut Vec<Dep>, d: Dep)
    requires
        deps_sorted(deps_view(old(out)@)),
    ensures
        deps_sorted(deps_view(final(out)@)),
        forall|x: DepView|
            #[trigger] has_dep(deps_view(final(out)@), x) == (has_dep(deps_view(old(out)@), x) || x
                == d@),
{
    let ghost pre = deps_view(out@);
    let mut i: usize = 0;
    while i < out.len() && dep_before(&out[i], &d)
        invariant
            i <= out@.len(),
            deps_view(out@) == pre,
            deps_sorted(pre),
            forall|k: int| 0 <= k < i ==> dep_lt(pre[k], d@),
        decreases out@.len() - i,
    {
        i = i + 1;
    }
    if i < out.len() && crate::model::dep_eq(&out[i], &d) {
        proof {
            assert(pre[i as int] == d@);
            assert forall|x: DepView| has_dep(pre, x) == (has_dep(pre, x) || x == d@) by {
                if x == d@ {
                    assert(has_dep(pre, x)) by {
                        assert(pre[i as int] == x);
                    }
                }
            }
        }
        return ;
    }
    proof {
        if (i as int) < pre.len() {
            assert(!dep_lt(pre[i as int], d@));
            assert(pre[i as int] != d@);
            lemma_dep_lt_total(pre[i as int], d@);
            assert(dep_lt(d@, pre[i as int]));
        }
    }
    let ghost dv = d@;
    out.insert(i, d);
    proof {
        let post = deps_view(out@);
        let ii = i as int;
        assert(post =~= pre.insert(ii, dv));
        assert(post.len() == pre.len() + 1);
        assert(forall|k: int| 0 <= k < ii ==> post[k] == pre[k]);
        assert(post[ii] == dv);
        assert(forall|k: int| ii < k < post.len() ==> post[k] == pre[k - 1]);
        assert forall|a: int, b: int| 0 <= a < b < post.len() implies dep_lt(post[a], post[b]) by {
            if a < ii && b == ii {
            } else if a == ii && b > ii {
                if b - 1 > ii {
                    lemma_dep_lt_trans(dv, pre[ii], pre[b - 1]);
                }
            } else if a < ii && b > ii {
                if b - 1 == a {
                    assert(false);
                }
            }
        }
        assert forall|x: DepView| has_dep(post, x) == (has_dep(pre, x) || x == dv) by {
            if has_dep(post, x) {
                let k = choose|k: int| 0 <= k < post.len() && post[k] == x;
                if k != ii {
                    let pk = if k < ii {
                        k
                    } else {
                        k - 1
                    };
                    assert(pre[pk] == x);
                }
            }
            if has_dep(pre, x) {
                let k = choose|k: int| 0 <= k < pre.len() && pre[k] == x;
                if k < ii {
                    assert(post[k] == x);
                } else {
                    assert(post[k + 1] == x);
                }
            }
            if x == dv {
                assert(post[ii] == x);
            }
        }
    }
}

/// Inserts an id into a strictly sorted vector of ids; inserting an id
/// already present changes nothing.
fn insert_id_sorted(v: &mut Vec<String>, id: &String)
    requires
        forall|a: int, b: int|
            0 <= a < b < old(v)@.len() ==> lex_lt(ids_view(old(v)@)[a], ids_view(old(v)@)[b]),
    ensures
        forall|a: int, b: int|
            0 <= a < b < final(v)@.len() ==> lex_lt(ids_view(final(v)@)[a], ids_view(final(v)@)[b]),
        forall|x: Seq<char>|
            #[trigger] ids_view(final(v)@).contains(x) == (ids_view(old(v)@).contains(x) || x
                == id@),
{
    let ghost pre = ids_view(v@);
    let mut i: usize = 0;
    while i < v.len() && str_lt(&v[i], id)
        invariant
            i <= v@.len(),
            ids_view(v@) == pre,
            forall|a: int, b: int| 0 <= a < b < pre.len() ==> lex_lt(pre[a], pre[b]),
            forall|k: int| 0 <= k < i ==> lex_lt(pre[k], id@),
        decreases v@.len() - i,
    {
        i = i + 1;
    }
    if i < v.len() && str_eq(v[i].as_str(), id.as_str()) {
        proof {
            assert(pre[i as int] == id@);
            assert forall|x: Seq<char>| pre.contains(x) == (pre.contains(x) || x == id@) by {
                if x == id@ {
                    assert(pre[i as int] == x);
                }
            }
        }
        return ;
    }
    proof {
        if (i as int) < pre.len() {
            assert(!lex_lt(pre[i as int], id@));
            assert(pre[i as int] != id@);
            lemma_lex_lt_total(pre[i as int], id@);
        }
    }
    v.insert(i, id.clone());
    proof {
        let post = ids_view(v@);
        let ii = i as int;
        assert(post =~= pre.insert(ii, id@));
        assert(forall|k: int| 0 <= k < ii ==> post[k] == pre[k]);
        assert(post[ii] == id@);
        assert(forall|k: int| ii < k < post.len() ==> post[k] == pre[k - 1]);
        assert forall|a: int, b: int| 0 <= a < b < post.len() implies lex_lt(post[a], post[b]) by {
            if a < ii && b == ii {
            } else if a == ii && b > ii {
                if b - 1 > ii {
                    lemma_lex_lt_trans(id@, pre[ii], pre[b - 1]);
                }
            } else if a < ii && b > ii {
                if b - 1 == a {
                    assert(false);
                }
            }
        }
        assert forall|x: Seq<char>| post.contains(x) == (pre.contains(x) || x == id@) by {
            if post.contains(x) {
                let k = choose|k: int| 0 <= k < post.len() && post[k] == x;
                if k != ii {
                    let pk = if k < ii {
                        k
                    } else {
                        k - 1
                    };
                    assert(pre[pk] == x);
                }
            }
            if pre.contains(x) {
                let k = choose|k: int| 0 <= k < pre.len() && pre[k] == x;
                if k < ii {
                    assert(post[k] == x);
                } else {
                    assert(post[k + 1] == x);
                }
            }
            if x == id@ {
                assert(post[ii] == x);
            }
        }
    }
}

/// Collects the ids of every item of the store into the sorted union vector.
fn add_store_ids(v: &mut Vec<String>, store: &Store)
    requires
        forall|a: int, b: int|
            0 <= a < b < old(v)@.len() ==> lex_lt(ids_view(old(v)@)[a], ids_view(old(v)@)[b]),
    ensures
        forall|a: int, b: int|
            0 <= a < b < final(v)@.len() ==> lex_lt(ids_view(final(v)@)[a], ids_view(final(v)@)[b]),
        forall|x: Seq<char>|
            #[trigger] ids_view(final(v)@).contains(x) == (ids_view(old(v)@).contains(x) || has_id(
                store@.items,
                x,
            )),
{
    let mut i: usize = 0;
    while i < store.items.len()
        invariant
            i <= store@.items.len(),
            forall|a: int, b: int|
                0 <= a < b < v@.len() ==> lex_lt(ids_view(v@)[a], ids_view(v@)[b]),
            forall|x: Seq<char>|
                #[trigger] ids_view(v@).contains(x) == (ids_view(old(v)@).contains(x) || exists|
                    k: int,
                | 0 <= k < i && (#[trigger] store@.items[k]).id == x),
        decreases store@.items.len() - i,
    {
        insert_id_sorted(v, &store.items[i].id);
        proof {
            assert(store@.items[i as int].id == store@.items[i as int].id);
        }
        i = i + 1;
    }
}

/// Compares two optional strings.
fn opt_str_eq(a: &Option<String>, b: &Option<String>) -> (r: bool)
    ensures
        r == (opt_str_view(*a) == opt_str_view(*b)),
{
    match (a, b) {
        (Some(x), Some(y)) => str_eq(x.as_str(), y.as_str()),
        (None, None) => true,
        _ => false,
    }
}

/// Field-level merge of one item present in all three snapshots.
pub fn merge_items(base: &Item, ours: &Item, theirs: &Item) -> (r: Item)
    ensures
        r@ == merge_item_view(base@, ours@, theirs@),
{
    Item {
        id: ours.id.clone(),
        title: if !str_eq(ours.title.as_str(), base.title.as_str()) {
            ours.title.clone()
        } else {
            theirs.title.clone()
        },
        description: if !opt_str_eq(&ours.description, &base.description) {
            crate::model::clone_opt_string(&ours.description)
        } else {
            crate::model::clone_opt_string(&theirs.description)
        },
        item_type: if ours.item_type != base.item_type {
            ours.item_type
        } else {
            theirs.item_type
        },
        status: if ours.status != base.status {
            ours.status
        } else {
            theirs.status
        },
        priority: if ours.priority != base.priority {
            ours.priority
        } else {
            theirs.priority
        },
        claimed_by: if !opt_str_eq(&theirs.claimed_by, &base.claimed_by) {
            crate::model::clone_opt_string(&theirs.claimed_by)
        } else {
            crate::model::clone_opt_string(&ours.claimed_by)
        },
        created_at: ours.created_at,
        updated_at: crate::clock::later_of(ours.updated_at, theirs.updated_at),
    }
}

/// True when the vector holds this exact edge.
fn contains_dep(deps: &Vec<Dep>, d: &Dep) -> (r: bool)
    ensures
        r == has_dep(deps_view(deps@), d@),
{
    let mut i: usize = 0;
    while i < deps.len()
        invariant
            i <= deps@.len(),
            forall|k: int| 0 <= k < i ==> deps_view(deps@)[k] != d@,
        decreases deps@.len() - i,
    {
        if crate::model::dep_eq(&deps[i], d) {
            proof {
                assert(deps_view(deps@)[i as int] == d@);
            }
            return true;
        }
        i = i + 1;
    }
    false
}

/// The merge contract: `m` is the reconciliation of `o` (local) and `t`
/// (remote) against the ancestor `b` — canonical, with per-id presence and
/// content following the merge tables and per-edge survival following the
/// removal rule.
pub open spec fn merge_post(b: StoreView, o: StoreView, t: StoreView, m: StoreView) -> bool {
    &&& store_wf(m)
    &&& deps_sorted(m.deps)
    &&& forall|id: Seq<char>| #[trigger] has_id(m.items, id) == merged_has(b.items, o.items, t.items, id)
    &&& forall|id: Seq<char>|
        #[trigger] has_id(m.items, id) ==> item_of(m.items, id) == merged_item(
            b.items,
            o.items,
            t.items,
            id,
        )
    &&& forall|d: DepView|
        #[trigger] has_dep(m.deps, d) == dep_keep(b.deps, o.deps, t.deps, b.items, o.items, t.items, d)
}

/// Schema-aware three-way merge of two diverged snapshots against their
/// common ancestor: per-item presence follows the deletion-wins /
/// addition-wins table, surviving items present everywhere are merged field
/// by field, and edges survive exactly when neither side removed them and
/// both endpoints survive; the result is canonical (items sorted by id,
/// edges deduplicated and sorted).
#[verifier::rlimit(60)]
#[verifier::spinoff_prover]
pub fn merge_stores(base: &Store, ours: &Store, theirs: &Store) -> (r: Result<Store, TrackError>)
    requires
        store_wf(base@),
        store_wf(ours@),
        store_wf(theirs@),
    ensures
        r matches Ok(m) && merge_post(base@, ours@, theirs@, m@),
{
    let ghost bi = base@.items;
    let ghost oi = ours@.items;
    let ghost ti = theirs@.items;
    let mut all_ids: Vec<String> = Vec::new();
    add_store_ids(&mut all_ids, base);
    add_store_ids(&mut all_ids, ours);
    add_store_ids(&mut all_ids, theirs);
    let ghost aids = ids_view(all_ids@);
    proof {
        assert(forall|x: Seq<char>|
            #[trigger] aids.contains(x) == (has_id(bi, x) || has_id(oi, x) || has_id(ti, x)));
    }
    let mut items: Vec<Item> = Vec::new();
    let ghost mut srcs: Seq<int> = Seq::empty();
    let mut j: usize = 0;
    while j < all_ids.len()
        invariant
            j <= aids.len(),
            ids_view(all_ids@) == aids,
            store_wf(base@) && store_wf(ours@) && store_wf(theirs@),
            bi == base@.items && oi == ours@.items && ti == theirs@.items,
            forall|a: int, b: int| 0 <= a < b < aids.len() ==> lex_lt(aids[a], aids[b]),
            srcs.len() == items@.len(),
            forall|a: int| 0 <= a < items@.len() ==> 0 <= #[trigger] srcs[a] < j,
            forall|a: int|
                0 <= a < items@.len() ==> (#[trigger] items@[a]@).id == aids[srcs[a]],
            items_sorted(items@.map_values(|it: Item| it@)),
            forall|a: int|
                0 <= a < items@.len() ==> merged_has(bi, oi, ti, (#[trigger] items@[a]@).id)
                    && items@[a]@ == merged_item(bi, oi, ti, items@[a]@.id),
            forall|k: int|
                0 <= k < j && merged_has(bi, oi, ti, #[trigger] aids[k]) ==> has_id(
                    items@.map_values(|it: Item| it@),
                    aids[k],
                ),
        decreases aids.len() - j,
    {
        let id = &all_ids[j];
        let ghost pre = items@.map_values(|it: Item| it@);
        proof {
            // The id under the cursor is new to the output: everything
            // pushed so far came from earlier positions of the sorted
            // union.
            assert forall|a: int| 0 <= a < pre.len() implies lex_lt(
                (#[trigger] pre[a]).id,
                id@,
            ) by {
                assert(pre[a].id == aids[srcs[a]]);
                assert(aids[j as int] == id@);
            }
            assert(!has_id(pre, id@)) by {
                if has_id(pre, id@) {
                    let w = choose|w: int| 0 <= w < pre.len() && pre[w].id == id@;
                    lemma_lex_lt_asym(pre[w].id, id@);
                }
            }
        }
        let inb = base.get_item(id);
        let ino = ours.get_item(id);
        let int_ = theirs.get_item(id);
        let picked: Option<Item> = match (inb, ino, int_) {
            (None, Some(o), None) => Some(o.clone()),
            (None, None, Some(t)) => Some(t.clone()),
            (None, Some(_), Some(t)) => Some(t.clone()),
            (Some(b), Some(o), Some(t)) => Some(merge_items(b, o, t)),
            _ => None,
        };
        if let Some(it) = picked {
            proof {
                assert(it@.id == id@);
                assert(merged_has(bi, oi, ti, id@));
                assert(it@ == merged_item(bi, oi, ti, id@));
            }
            items.push(it);
            proof {
                let post = items@.map_values(|it2: Item| it2@);
                assert(post =~= pre.insert(pre.len() as int, items@[items@.len() - 1]@));
                assert forall|a: int, b: int| 0 <= a < b < post.len() implies lex_lt(
                    post[a].id,
                    post[b].id,
                ) by {
                    if b == post.len() - 1 {
                        assert(post[a] == pre[a]);
                    }
                }
                srcs = srcs.push(j as int);
                assert(srcs[srcs.len() - 1] == j as int);
                assert(items@[items@.len() - 1]@.id == aids[j as int]);
            }
        } else {
            proof {
                assert(!merged_has(bi, oi, ti, id@));
            }
        }
        proof {
            let post = items@.map_values(|it2: Item| it2@);
            assert forall|k: int|
                0 <= k <= j && merged_has(bi, oi, ti, #[trigger] aids[k]) implies has_id(
                post,
                aids[k],
            ) by {
                if k < j {
                    assert(has_id(pre, aids[k]));
                    let w = choose|w: int| 0 <= w < pre.len() && pre[w].id == aids[k];
                    assert(post[w].id == aids[k]);
                } else {
                    assert(aids[k] == id@);
                    assert(post[post.len() - 1].id == id@);
                }
            }
        }
        j = j + 1;
    }
    let ghost mitems = items@.map_values(|it: Item| it@);
    proof {
        // Every surviving id is listed in the union, so presence in the
        // merged items matches the presence rule for every id.
        assert forall|id: Seq<char>| #[trigger] has_id(mitems, id) == merged_has(
            bi,
            oi,
            ti,
            id,
        ) by {
            if has_id(mitems, id) {
                let w = choose|w: int| 0 <= w < mitems.len() && mitems[w].id == id;
            }
            if merged_has(bi, oi, ti, id) {
                assert(aids.contains(id)) by {
                    if has_id(bi, id) {
                    } else {
                    }
                }
                let k = choose|k: int| 0 <= k < aids.len() && aids[k] == id;
            }
        }
        assert forall|id: Seq<char>| #[trigger] has_id(mitems, id) implies item_of(mitems, id)
            == merged_item(bi, oi, ti, id) by {
            let w = choose|w: int| 0 <= w < mitems.len() && mitems[w].id == id;
            let w2 = choose|w2: int| 0 <= w2 < mitems.len() && mitems[w2].id == id;
            crate::model::lemma_sorted_id_unique(mitems, w, w2);
        }
    }
    let mut m = Store { items, deps: Vec::new() };
    let mut out_deps: Vec<Dep> = Vec::new();
    let ghost bd = base@.deps;
    let ghost od = ours@.deps;
    let ghost td = theirs@.deps;
    let mut i: usize = 0;
    while i < ours.deps.len()
        invariant
            i <= od.len(),
            ours@.deps == od,
            base@.deps == bd,
            theirs@.deps == td,
            bi == base@.items && oi == ours@.items && ti == theirs@.items,
            m@.items == mitems,
            forall|id: Seq<char>|
                #[trigger] has_id(mitems, id) == merged_has(bi, oi, ti, id),
            deps_sorted(deps_view(out_deps@)),
            forall|x: DepView|
                #[trigger] has_dep(deps_view(out_deps@), x) == ((exists|k: int|
                    0 <= k < i && od[k] == x) && (!has_dep(bd, x) || has_dep(td, x)) && merged_has(
                    bi,
                    oi,
                    ti,
                    x.from_id,
                ) && merged_has(bi, oi, ti, x.to_id)),
        decreases od.len() - i,
    {
        let d = &ours.deps[i];
        let in_base = contains_dep(&base.deps, d);
        let in_theirs = contains_dep(&theirs.deps, d);
        let from_kept = m.contains_id(&d.from_id);
        let to_kept = m.contains_id(&d.to_id);
        if (!in_base || in_theirs) && from_kept && to_kept {
            insert_dep_sorted(&mut out_deps, d.clone());
        }
        proof {
            assert(od[i as int] == d@);
            assert forall|x: DepView| #[trigger] has_dep(deps_view(out_deps@), x) == ((exists|
                k: int,
            | 0 <= k <= i && od[k] == x) && (!has_dep(bd, x) || has_dep(td, x)) && merged_has(
                bi,
                oi,
                ti,
                x.from_id,
            ) && merged_has(bi, oi, ti, x.to_id)) by {
                if x == d@ {
                    assert(od[i as int] == x);
                }
            }
        }
        i = i + 1;
    }
    let ghost ours_done = deps_view(out_deps@);
    let mut i2: usize = 0;
    while i2 < theirs.deps.len()
        invariant
            i2 <= td.len(),
            ours@.deps == od,
            base@.deps == bd,
            theirs@.deps == td,
            bi == base@.items && oi == ours@.items && ti == theirs@.items,
            m@.items == mitems,
            forall|id: Seq<char>|
                #[trigger] has_id(mitems, id) == merged_has(bi, oi, ti, id),
            deps_sorted(deps_view(out_deps@)),
            forall|x: DepView|
                #[trigger] has_dep(deps_view(out_deps@), x) == (has_dep(ours_done, x) || ((exists|
                    k: int,
                | 0 <= k < i2 && td[k] == x) && (!has_dep(bd, x) || has_dep(od, x)) && merged_has(
                    bi,
                    oi,
                    ti,
                    x.from_id,
                ) && merged_has(bi, oi, ti, x.to_id))),
            forall|x: DepView|
                #[trigger] has_dep(ours_done, x) == (has_dep(od, x) && (!has_dep(bd, x) || has_dep(
                    td,
                    x,
                )) && merged_has(bi, oi, ti, x.from_id) && merged_has(bi, oi, ti, x.to_id)),
        decreases td.len() - i2,
    {
        let d = &theirs.deps[i2];
        let in_base = contains_dep(&base.deps, d);
        let in_ours = contains_dep(&ours.deps, d);
        let from_kept = m.contains_id(&d.from_id);
        let to_kept = m.contains_id(&d.to_id);
        if (!in_base || in_ours) && from_kept && to_kept {
            insert_dep_sorted(&mut out_deps, d.clone());
        }
        proof {
            assert(td[i2 as int] == d@);
            assert forall|x: DepView| #[trigger] has_dep(deps_view(out_deps@), x) == (has_dep(
                ours_done,
                x,
            ) || ((exists|k: int| 0 <= k <= i2 && td[k] == x) && (!has_dep(bd, x) || has_dep(
                od,
                x,
            )) && merged_has(bi, oi, ti, x.from_id) && merged_has(bi, oi, ti, x.to_id))) by {
                if x == d@ {
                    assert(td[i2 as int] == x);
                }
            }
        }
        i2 = i2 + 1;
    }
    m.deps = out_deps;
    proof {
        assert forall|d: DepView| #[trigger] has_dep(m@.deps, d) == dep_keep(
            bd,
            od,
            td,
            bi,
            oi,
            ti,
            d,
        ) by {}
    }
    Ok(m)
}

} // verus!
