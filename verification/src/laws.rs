//! The engine's general laws, each proved once and for all inputs: exact
//! resolution wins, ids stay pairwise distinct, merging a snapshot with
//! itself changes nothing, deletion leaves no edge behind, the ready listing
//! excludes closed, claimed, and blocked items, and replacing a parent link
//! that passed the cycle check keeps the parent relation acyclic.

use vstd::prelude::*;

use crate::merge::dep_keep;
use crate::merge::dep_lt;
use crate::merge::deps_sorted;
use crate::merge::lemma_dep_lt_asym;
use crate::merge::merge_item_view;
use crate::merge::merged_has;
use crate::merge::merged_item;
use crate::model::edges_closed;
use crate::model::has_id;
use crate::model::item_of;
use crate::model::items_sorted;
use crate::model::lemma_sorted_id_unique;
use crate::model::DepView;
use crate::model::ItemView;
use crate::model::StoreView;
use crate::ops::anc_n;
use crate::ops::blockers_of;
use crate::ops::deps_remove_parent_edges;
use crate::ops::has_dep;
use crate::ops::is_ready;
use crate::ops::lemma_anc_compose;
use crate::ops::lemma_parent_after_replace;
use crate::ops::parent_acyclic;
use crate::ops::parent_of;
use crate::ops::resolved;
use crate::strutil::lemma_lex_lt_asym;
use crate::strutil::lex_lt;

verus! {

/// Resolution is deterministic and an exact id match always wins over any
/// prefix match: whenever the query names an existing item, it resolves to
/// that item, whatever other items its text happens to prefix.
pub proof fn lemma_exact_match_wins(items: Seq<ItemView>, q: Seq<char>)
    requires
        has_id(items, q),
    ensures
        resolved(items, q) == Some(q),
{
}

/// In a well-formed document, ids are pairwise distinct.
pub proof fn lemma_ids_pairwise_distinct(items: Seq<ItemView>)
    requires
        items_sorted(items),
    ensures
        forall|i: int, j: int|
            0 <= i < j < items.len() ==> (#[trigger] items[i]).id != (#[trigger] items[j]).id,
{
    assert forall|i: int, j: int| 0 <= i < j < items.len() implies (#[trigger] items[i]).id != (
    #[trigger] items[j]).id by {
        lemma_lex_lt_asym(items[i].id, items[j].id);
    }
}

/// The ready listing never includes a closed or claimed item, and excludes
/// any item one of whose blockers is missing or not closed.
pub proof fn lemma_ready_excludes(s: StoreView, it: ItemView)
    requires
        is_ready(s, it),
    ensures
        it.status == crate::model::Status::Open,
        it.claimed_by is None,
        forall|k: int|
            0 <= k < blockers_of(s.deps, it.id).len() ==> has_id(
                s.items,
                #[trigger] blockers_of(s.deps, it.id)[k],
            ) && item_of(s.items, blockers_of(s.deps, it.id)[k]).status
                == crate::model::Status::Closed,
{
    reveal(is_ready);
}

/// A claim that reached the shared history first is never merged away: when
/// the remote copy of an item carries a claimant that the common ancestor did
/// not, the merged item carries exactly that claimant, whatever the local
/// side wrote.
pub proof fn lemma_published_claim_survives_merge(b: ItemView, o: ItemView, t: ItemView)
    requires
        t.claimed_by is Some,
        t.claimed_by != b.claimed_by,
    ensures
        merge_item_view(b, o, t).claimed_by == t.claimed_by,
{
}

/// Two sorted item sequences that agree on which ids exist and on the item
/// carried by each id are the same sequence.
proof fn lemma_sorted_items_agree(a: Seq<ItemView>, b: Seq<ItemView>)
    requires
        items_sorted(a),
        items_sorted(b),
        forall|id: Seq<char>| #[trigger] has_id(a, id) == has_id(b, id),
        forall|id: Seq<char>| #[trigger] has_id(a, id) ==> item_of(a, id) == item_of(b, id),
    ensures
        a == b,
    decreases a.len(),
{
    if a.len() == 0 {
        if b.len() > 0 {
            assert(has_id(b, b[0].id));
            assert(!has_id(a, b[0].id));
            assert(false);
        }
        assert(a =~= b);
    } else if b.len() == 0 {
        assert(has_id(a, a[0].id));
        assert(!has_id(b, a[0].id));
        assert(false);
    } else {
        let ida = a[0].id;
        let idb = b[0].id;
        assert(has_id(a, ida));
        assert(has_id(b, idb));
        assert(has_id(b, ida));
        assert(has_id(a, idb));
        if ida != idb {
            let j = choose|j: int| 0 <= j < b.len() && b[j].id == ida;
            let k = choose|k: int| 0 <= k < a.len() && a[k].id == idb;
            assert(j >= 1);
            assert(k >= 1);
            assert(lex_lt(idb, b[j].id));
            assert(lex_lt(ida, a[k].id));
            lemma_lex_lt_asym(ida, idb);
            assert(false);
        }
        assert(item_of(a, ida) == a[0]) by {
            let w = choose|w: int| 0 <= w < a.len() && a[w].id == ida;
            lemma_sorted_id_unique(a, w, 0);
        }
        assert(item_of(b, ida) == b[0]) by {
            let w = choose|w: int| 0 <= w < b.len() && b[w].id == ida;
            lemma_sorted_id_unique(b, w, 0);
        }
        assert(a[0] == b[0]);
        let ta = a.drop_first();
        let tb = b.drop_first();
        assert(items_sorted(ta)) by {
            assert forall|x: int, y: int| 0 <= x < y < ta.len() implies lex_lt(
                ta[x].id,
                ta[y].id,
            ) by {
                assert(ta[x] == a[x + 1] && ta[y] == a[y + 1]);
            }
        }
        assert(items_sorted(tb)) by {
            assert forall|x: int, y: int| 0 <= x < y < tb.len() implies lex_lt(
                tb[x].id,
                tb[y].id,
            ) by {
                assert(tb[x] == b[x + 1] && tb[y] == b[y + 1]);
            }
        }
        assert forall|id: Seq<char>| #[trigger] has_id(ta, id) == has_id(tb, id) by {
            if has_id(ta, id) {
                let w = choose|w: int| 0 <= w < ta.len() && ta[w].id == id;
                assert(a[w + 1].id == id);
                if id == ida {
                    lemma_sorted_id_unique(a, w + 1, 0);
                    assert(false);
                }
                assert(has_id(a, id));
                assert(has_id(b, id));
                let w2 = choose|w2: int| 0 <= w2 < b.len() && b[w2].id == id;
                assert(w2 != 0);
                assert(tb[w2 - 1].id == id);
            }
            if has_id(tb, id) {
                let w = choose|w: int| 0 <= w < tb.len() && tb[w].id == id;
                assert(b[w + 1].id == id);
                if id == idb {
                    lemma_sorted_id_unique(b, w + 1, 0);
                    assert(false);
                }
                assert(has_id(b, id));
                assert(has_id(a, id));
                let w2 = choose|w2: int| 0 <= w2 < a.len() && a[w2].id == id;
                assert(w2 != 0);
                assert(ta[w2 - 1].id == id);
            }
        }
        assert forall|id: Seq<char>| #[trigger] has_id(ta, id) implies item_of(ta, id) == item_of(
            tb,
            id,
        ) by {
            let w = choose|w: int| 0 <= w < ta.len() && ta[w].id == id;
            assert(a[w + 1].id == id);
            if id == ida {
                lemma_sorted_id_unique(a, w + 1, 0);
                assert(false);
            }
            assert(has_id(a, id) && has_id(b, id) && has_id(tb, id));
            assert(item_of(a, id) == a[w + 1]) by {
                let wa = choose|wa: int| 0 <= wa < a.len() && a[wa].id == id;
                lemma_sorted_id_unique(a, wa, w + 1);
            }
            assert(item_of(ta, id) == ta[w]) by {
                let wt = choose|wt: int| 0 <= wt < ta.len() && ta[wt].id == id;
                lemma_sorted_id_unique(ta, wt, w);
            }
            assert(item_of(ta, id) == item_of(a, id));
            let wb0 = choose|wb0: int| 0 <= wb0 < b.len() && b[wb0].id == id;
            assert(wb0 != 0);
            assert(item_of(b, id) == b[wb0]) by {
                let w2 = choose|w2: int| 0 <= w2 < b.len() && b[w2].id == id;
                lemma_sorted_id_unique(b, w2, wb0);
            }
            assert(tb[wb0 - 1].id == id);
            assert(item_of(tb, id) == tb[wb0 - 1]) by {
                let w2 = choose|w2: int| 0 <= w2 < tb.len() && tb[w2].id == id;
                lemma_sorted_id_unique(tb, w2, wb0 - 1);
            }
            assert(item_of(tb, id) == item_of(b, id));
        }
        lemma_sorted_items_agree(ta, tb);
        assert(a =~= b) by {
            assert(a.len() == ta.len() + 1 && b.len() == tb.len() + 1);
            assert(forall|x: int| 1 <= x < a.len() ==> a[x] == ta[x - 1] && b[x] == tb[x - 1]);
        }
    }
}

/// Two `dep_lt`-sorted edge sequences that hold the same edges are the same
/// sequence.
proof fn lemma_sorted_deps_agree(a: Seq<DepView>, b: Seq<DepView>)
    requires
        deps_sorted(a),
        deps_sorted(b),
        forall|d: DepView| #[trigger] has_dep(a, d) == has_dep(b, d),
    ensures
        a == b,
    decreases a.len(),
{
    if a.len() == 0 {
        if b.len() > 0 {
            assert(has_dep(b, b[0]));
            assert(!has_dep(a, b[0]));
            assert(false);
        }
        assert(a =~= b);
    } else if b.len() == 0 {
        assert(has_dep(a, a[0]));
        assert(!has_dep(b, a[0]));
        assert(false);
    } else {
        let da = a[0];
        let db = b[0];
        assert(has_dep(a, da));
        assert(has_dep(b, db));
        assert(has_dep(b, da));
        assert(has_dep(a, db));
        if da != db {
            let j = choose|j: int| 0 <= j < b.len() && b[j] == da;
            let k = choose|k: int| 0 <= k < a.len() && a[k] == db;
            assert(j >= 1);
            assert(k >= 1);
            assert(dep_lt(db, b[j]));
            assert(dep_lt(da, a[k]));
            lemma_dep_lt_asym(da, db);
            assert(false);
        }
        let ta = a.drop_first();
        let tb = b.drop_first();
        assert(deps_sorted(ta)) by {
            assert forall|x: int, y: int| 0 <= x < y < ta.len() implies dep_lt(ta[x], ta[y]) by {
                assert(ta[x] == a[x + 1] && ta[y] == a[y + 1]);
            }
        }
        assert(deps_sorted(tb)) by {
            assert forall|x: int, y: int| 0 <= x < y < tb.len() implies dep_lt(tb[x], tb[y]) by {
                assert(tb[x] == b[x + 1] && tb[y] == b[y + 1]);
            }
        }
        assert forall|d: DepView| #[trigger] has_dep(ta, d) == has_dep(tb, d) by {
            if has_dep(ta, d) {
                let w = choose|w: int| 0 <= w < ta.len() && ta[w] == d;
                assert(a[w + 1] == d);
                if d == da {
                    assert(dep_lt(a[0], a[w + 1]));
                    lemma_dep_lt_asym(a[0], a[w + 1]);
                    assert(false);
                }
                assert(has_dep(a, d) && has_dep(b, d));
                let w2 = choose|w2: int| 0 <= w2 < b.len() && b[w2] == d;
                assert(w2 != 0);
                assert(tb[w2 - 1] == d);
            }
            if has_dep(tb, d) {
                let w = choose|w: int| 0 <= w < tb.len() && tb[w] == d;
                assert(b[w + 1] == d);
                if d == db {
                    assert(dep_lt(b[0], b[w + 1]));
                    lemma_dep_lt_asym(b[0], b[w + 1]);
                    assert(false);
                }
                assert(has_dep(b, d) && has_dep(a, d));
                let w2 = choose|w2: int| 0 <= w2 < a.len() && a[w2] == d;
                assert(w2 != 0);
                assert(ta[w2 - 1] == d);
            }
        }
        lemma_sorted_deps_agree(ta, tb);
        assert(a =~= b) by {
            assert(a.len() == ta.len() + 1 && b.len() == tb.len() + 1);
            assert(forall|x: int| 1 <= x < a.len() ==> a[x] == ta[x - 1] && b[x] == tb[x - 1]);
        }
    }
}

/// Merging a snapshot with itself changes nothing: a merge result whose
/// contents follow the merge contract for `(base, s, s)` is `s` itself, for
/// any canonical snapshot `s` (items sorted, edges sorted and closed over
/// the items) and any ancestor `base`.
pub proof fn lemma_merge_self_is_identity(bv: StoreView, sv: StoreView, mv: StoreView)
    requires
        items_sorted(sv.items),
        deps_sorted(sv.deps),
        edges_closed(sv),
        items_sorted(mv.items),
        deps_sorted(mv.deps),
        forall|id: Seq<char>|
            #[trigger] has_id(mv.items, id) == merged_has(bv.items, sv.items, sv.items, id),
        forall|id: Seq<char>|
            #[trigger] has_id(mv.items, id) ==> item_of(mv.items, id) == merged_item(
                bv.items,
                sv.items,
                sv.items,
                id,
            ),
        forall|d: DepView|
            #[trigger] has_dep(mv.deps, d) == dep_keep(
                bv.deps,
                sv.deps,
                sv.deps,
                bv.items,
                sv.items,
                sv.items,
                d,
            ),
    ensures
        mv.items == sv.items,
        mv.deps == sv.deps,
{
    assert forall|id: Seq<char>| #[trigger] has_id(mv.items, id) == has_id(sv.items, id) by {
        assert(merged_has(bv.items, sv.items, sv.items, id) == has_id(sv.items, id));
    }
    assert forall|id: Seq<char>| #[trigger] has_id(mv.items, id) implies item_of(mv.items, id)
        == item_of(sv.items, id) by {
        let si = item_of(sv.items, id);
        if has_id(bv.items, id) {
            assert(merged_item(bv.items, sv.items, sv.items, id) == merge_item_view(
                item_of(bv.items, id),
                si,
                si,
            ));
            assert(merge_item_view(item_of(bv.items, id), si, si) == si);
        } else {
            assert(merged_item(bv.items, sv.items, sv.items, id) == si);
        }
    }
    lemma_sorted_items_agree(mv.items, sv.items);
    assert forall|d: DepView| #[trigger] has_dep(mv.deps, d) == has_dep(sv.deps, d) by {
        if has_dep(sv.deps, d) {
            let w = choose|w: int| 0 <= w < sv.deps.len() && sv.deps[w] == d;
            assert(sv.deps[w] == d);
            assert(has_id(sv.items, sv.deps[w].from_id) && has_id(sv.items, sv.deps[w].to_id));
            assert(merged_has(bv.items, sv.items, sv.items, d.from_id));
            assert(merged_has(bv.items, sv.items, sv.items, d.to_id));
            assert(dep_keep(bv.deps, sv.deps, sv.deps, bv.items, sv.items, sv.items, d));
        }
        if !has_dep(sv.deps, d) {
            assert(!dep_keep(bv.deps, sv.deps, sv.deps, bv.items, sv.items, sv.items, d));
        }
    }
    lemma_sorted_deps_agree(mv.deps, sv.deps);
}

/// Along a parent map that agrees with another off one id, ancestor chains
/// that never pass through that id are the same in both.
proof fn lemma_anc_transfer(
    nd: Seq<DepView>,
    od: Seq<DepView>,
    c: Seq<char>,
    start: Seq<char>,
    n: nat,
)
    requires
        forall|x: Seq<char>| x != c ==> #[trigger] parent_of(nd, x) == parent_of(od, x),
        forall|k: nat| k < n ==> #[trigger] anc_n(nd, start, k) != Some(c),
    ensures
        anc_n(nd, start, n) == anc_n(od, start, n),
    decreases n,
{
    if n > 0 {
        assert(forall|k: nat| k < (n - 1) as nat ==> #[trigger] anc_n(nd, start, k) != Some(c));
        lemma_anc_transfer(nd, od, c, start, (n - 1) as nat);
        match anc_n(nd, start, (n - 1) as nat) {
            Some(x) => {
                assert(x != c) by {
                    assert(anc_n(nd, start, (n - 1) as nat) != Some(c));
                }
            },
            None => {},
        }
    }
}

/// If a chain reaches `c` in the new map and starts off `c`, then the old
/// map also reaches `c` from the same start.
proof fn lemma_reach_c_transfer(
    nd: Seq<DepView>,
    od: Seq<DepView>,
    c: Seq<char>,
    start: Seq<char>,
    j: nat,
)
    requires
        forall|x: Seq<char>| x != c ==> #[trigger] parent_of(nd, x) == parent_of(od, x),
        start != c,
        1 <= j,
        anc_n(nd, start, j) == Some(c),
    ensures
        exists|k: nat| 1 <= k && anc_n(od, start, k) == Some(c),
    decreases j,
{
    lemma_anc_compose(nd, start, 1, (j - 1) as nat);
    assert(anc_n(nd, start, 0) == Some(start));
    assert(anc_n(nd, start, 1) == parent_of(nd, start));
    match parent_of(nd, start) {
        None => {
            assert(false);
        },
        Some(y) => {
            if y == c {
                assert(anc_n(od, start, 0) == Some(start));
                assert(anc_n(od, start, 1) == parent_of(od, start));
                assert(parent_of(od, start) == Some(c));
            } else {
                assert(anc_n(nd, y, (j - 1) as nat) == Some(c));
                assert(j - 1 >= 1) by {
                    if j == 1 {
                        assert(anc_n(nd, y, 0) == Some(y));
                        assert(false);
                    }
                }
                lemma_reach_c_transfer(nd, od, c, y, (j - 1) as nat);
                let k = choose|k: nat| 1 <= k && anc_n(od, y, k) == Some(c);
                lemma_anc_compose(od, start, 1, k);
                assert(anc_n(od, start, 0) == Some(start));
                assert(anc_n(od, start, 1) == parent_of(od, start));
                assert(parent_of(od, start) == Some(y));
                assert(anc_n(od, start, (1 + k) as nat) == Some(c));
            }
        },
    }
}

/// Rewiring one id's parent keeps the relation acyclic: if the new edge map
/// agrees with the old everywhere but at `c`, sends `c` to `p`, and the old
/// map cannot reach `c` from `p`, then no cycle can appear.
pub proof fn lemma_parent_rewire_keeps_acyclic(
    od: Seq<DepView>,
    nd: Seq<DepView>,
    c: Seq<char>,
    p: Seq<char>,
)
    requires
        parent_acyclic(od),
        c != p,
        parent_of(nd, c) == Some(p),
        forall|x: Seq<char>| x != c ==> #[trigger] parent_of(nd, x) == parent_of(od, x),
        !(exists|n: nat| 1 <= n && anc_n(od, p, n) == Some(c)),
    ensures
        parent_acyclic(nd),
{
    let deps = od;
    assert forall|x: Seq<char>, n: nat| 1 <= n implies anc_n(nd, x, n) != Some(x) by {
        if anc_n(nd, x, n) == Some(x) {
            if forall|k: nat| k < n ==> #[trigger] anc_n(nd, x, k) != Some(c) {
                lemma_anc_transfer(nd, deps, c, x, n);
                assert(anc_n(deps, x, n) == Some(x));
                assert(false);
            } else {
                // The cycle passes through `child`; rotate it there.
                let k = choose|k: nat| k < n && anc_n(nd, x, k) == Some(c);
                lemma_anc_compose(nd, x, k, (n - k) as nat);
                assert(anc_n(nd, c, (n - k) as nat) == Some(x));
                lemma_anc_compose(nd, c, (n - k) as nat, k);
                assert(anc_n(nd, c, n) == Some(c));
                // The first step from `child` goes to `parent`.
                lemma_anc_compose(nd, c, 1, (n - 1) as nat);
                assert(anc_n(nd, c, 0) == Some(c));
                assert(anc_n(nd, c, 1) == parent_of(nd, c));
                assert(anc_n(nd, p, (n - 1) as nat) == Some(c));
                assert(n - 1 >= 1) by {
                    if n == 1 {
                        assert(anc_n(nd, p, 0) == Some(p));
                        assert(false);
                    }
                }
                lemma_reach_c_transfer(nd, deps, c, p, (n - 1) as nat);
                assert(false);
            }
        }
    }
}

/// Replacing the parent of `child` with `parent` keeps the parent relation
/// acyclic, provided `child` and `parent` differ and `child` is not already
/// in the ancestor chain of `parent` — exactly what `set_parent` checks
/// before it rewrites the edges.
pub proof fn lemma_set_parent_keeps_acyclic(deps: Seq<DepView>, c: Seq<char>, p: Seq<char>)
    requires
        parent_acyclic(deps),
        c != p,
        !(exists|n: nat| 1 <= n && anc_n(deps, p, n) == Some(c)),
    ensures
        parent_acyclic(
            deps_remove_parent_edges(deps, c).push(
                DepView { from_id: c, to_id: p, dep_type: crate::model::DepType::Parent },
            ),
        ),
{
    let e = DepView { from_id: c, to_id: p, dep_type: crate::model::DepType::Parent };
    let nd = deps_remove_parent_edges(deps, c).push(e);
    lemma_parent_after_replace(deps, c, p);
    lemma_parent_rewire_keeps_acyclic(deps, nd, c, p);
}

/// Appending one edge at the end changes the parent lookup of its source
/// only, and only when the source had no parent before.
proof fn lemma_parent_of_push(deps: Seq<DepView>, e: DepView)
    ensures
        forall|x: Seq<char>|
            x != e.from_id ==> #[trigger] parent_of(deps.push(e), x) == parent_of(deps, x),
        parent_of(deps, e.from_id) is None && e.dep_type == crate::model::DepType::Parent
            ==> parent_of(deps.push(e), e.from_id) == Some(e.to_id),
        e.dep_type == crate::model::DepType::Blocks ==> parent_of(deps.push(e), e.from_id)
            == parent_of(deps, e.from_id),
    decreases deps.len(),
{
    let nd = deps.push(e);
    if deps.len() == 0 {
        assert(nd =~= seq![e]);
        assert(nd.drop_first() =~= Seq::<DepView>::empty());
        assert forall|x: Seq<char>| x != e.from_id implies #[trigger] parent_of(nd, x)
            == parent_of(deps, x) by {
            assert(parent_of(nd, x) == parent_of(nd.drop_first(), x));
        }
    } else {
        lemma_parent_of_push(deps.drop_first(), e);
        assert(nd[0] == deps[0]);
        assert(nd.drop_first() =~= deps.drop_first().push(e));
        assert forall|x: Seq<char>| x != e.from_id implies #[trigger] parent_of(nd, x)
            == parent_of(deps, x) by {
            if !(deps[0].dep_type == crate::model::DepType::Parent && deps[0].from_id == x) {
                assert(parent_of(nd, x) == parent_of(nd.drop_first(), x));
                assert(parent_of(deps, x) == parent_of(deps.drop_first(), x));
                assert(parent_of(deps.drop_first().push(e), x) == parent_of(
                    deps.drop_first(),
                    x,
                ));
            }
        }
        if parent_of(deps, e.from_id) is None && e.dep_type == crate::model::DepType::Parent {
            assert(!(deps[0].dep_type == crate::model::DepType::Parent && deps[0].from_id
                == e.from_id));
            assert(parent_of(deps.drop_first(), e.from_id) is None);
            assert(parent_of(nd, e.from_id) == parent_of(nd.drop_first(), e.from_id));
        }
        if e.dep_type == crate::model::DepType::Blocks {
            if !(deps[0].dep_type == crate::model::DepType::Parent && deps[0].from_id
                == e.from_id) {
                assert(parent_of(nd, e.from_id) == parent_of(nd.drop_first(), e.from_id));
                assert(parent_of(deps, e.from_id) == parent_of(deps.drop_first(), e.from_id));
            }
        }
    }
}

/// Adding a blocking edge touches no parent lookup, so the parent relation,
/// its uniqueness, and edge closedness all survive; the edge itself must
/// name existing items.
pub proof fn lemma_add_blocking_keeps_graph(
    items: Seq<ItemView>,
    deps: Seq<DepView>,
    b: Seq<char>,
    d: Seq<char>,
)
    requires
        parent_acyclic(deps),
        parent_unique(deps),
        edges_closed(StoreView { items: items, deps: deps }),
        has_id(items, b),
        has_id(items, d),
    ensures
        ({
            let nd = deps.push(
                DepView { from_id: b, to_id: d, dep_type: crate::model::DepType::Blocks },
            );
            parent_acyclic(nd) && parent_unique(nd) && edges_closed(
                StoreView { items: items, deps: nd },
            )
        }),
{
    let e = DepView { from_id: b, to_id: d, dep_type: crate::model::DepType::Blocks };
    let nd = deps.push(e);
    lemma_parent_of_push(deps, e);
    assert forall|x: Seq<char>, n: nat| 1 <= n implies anc_n(nd, x, n) != Some(x) by {
        if anc_n(nd, x, n) == Some(x) {
            assert(forall|y: Seq<char>| #[trigger] parent_of(nd, y) == parent_of(deps, y)) by {
                assert(parent_of(nd, e.from_id) == parent_of(deps, e.from_id));
            }
            assert(forall|k: nat| k < n ==> #[trigger] anc_n(nd, x, k) != Some(x) || true);
            lemma_anc_same_map(nd, deps, x, n);
            assert(false);
        }
    }
    assert forall|i: int, j: int|
        0 <= i < nd.len() && 0 <= j < nd.len() && (#[trigger] nd[i]).dep_type
            == crate::model::DepType::Parent && (#[trigger] nd[j]).dep_type
            == crate::model::DepType::Parent && nd[i].from_id == nd[j].from_id implies i == j by {
        if i < deps.len() && j < deps.len() {
            assert(nd[i] == deps[i] && nd[j] == deps[j]);
        }
    }
    assert forall|k: int| 0 <= k < nd.len() implies has_id(
        items,
        (#[trigger] nd[k]).from_id,
    ) && has_id(items, nd[k].to_id) by {
        if k < deps.len() {
            assert(nd[k] == deps[k]);
        } else {
            assert(nd[k] == e);
        }
    }
}

/// Two edge lists with the same parent lookups have the same ancestor
/// chains.
proof fn lemma_anc_same_map(nd: Seq<DepView>, od: Seq<DepView>, start: Seq<char>, n: nat)
    requires
        forall|y: Seq<char>| #[trigger] parent_of(nd, y) == parent_of(od, y),
    ensures
        anc_n(nd, start, n) == anc_n(od, start, n),
    decreases n,
{
    if n > 0 {
        lemma_anc_same_map(nd, od, start, (n - 1) as nat);
    }
}

/// Parent-edge uniqueness survives deleting every edge that mentions an id.
proof fn lemma_remove_id_unique(deps: Seq<DepView>, x: Seq<char>)
    requires
        parent_unique(deps),
    ensures
        parent_unique(crate::ops::deps_remove_id(deps, x)),
    decreases deps.len(),
{
    if deps.len() > 0 {
        let rest = deps.drop_first();
        assert(parent_unique(rest)) by {
            assert forall|a: int, b: int|
                0 <= a < rest.len() && 0 <= b < rest.len() && (#[trigger] rest[a]).dep_type
                    == crate::model::DepType::Parent && (#[trigger] rest[b]).dep_type
                    == crate::model::DepType::Parent && rest[a].from_id
                    == rest[b].from_id implies a == b by {
                assert(rest[a] == deps[a + 1] && rest[b] == deps[b + 1]);
            }
        }
        lemma_remove_id_unique(rest, x);
        crate::ops::lemma_deps_remove_id_props(rest, x);
        let rr = crate::ops::deps_remove_id(rest, x);
        let full = crate::ops::deps_remove_id(deps, x);
        if deps[0].from_id == x || deps[0].to_id == x {
            assert(full == rr);
        } else {
            assert(full =~= seq![deps[0]] + rr);
            assert forall|a: int, b: int|
                0 <= a < full.len() && 0 <= b < full.len() && (#[trigger] full[a]).dep_type
                    == crate::model::DepType::Parent && (#[trigger] full[b]).dep_type
                    == crate::model::DepType::Parent && full[a].from_id
                    == full[b].from_id implies a == b by {
                if a == 0 && b > 0 {
                    assert(full[b] == rr[b - 1]);
                    assert(has_dep(rest, rr[b - 1]));
                    let w = choose|k: int| 0 <= k < rest.len() && rest[k] == rr[b - 1];
                    assert(deps[w + 1] == full[b]);
                    assert(false);
                } else if b == 0 && a > 0 {
                    assert(full[a] == rr[a - 1]);
                    assert(has_dep(rest, rr[a - 1]));
                    let w = choose|k: int| 0 <= k < rest.len() && rest[k] == rr[a - 1];
                    assert(deps[w + 1] == full[a]);
                    assert(false);
                } else if a > 0 && b > 0 {
                    assert(full[a] == rr[a - 1] && full[b] == rr[b - 1]);
                }
            }
        }
    }
}

/// Deleting an item keeps the parent relation acyclic and unique and leaves
/// no dangling edge: survivors reference only surviving items.
pub proof fn lemma_delete_keeps_graph(
    old_items: Seq<ItemView>,
    new_items: Seq<ItemView>,
    deps: Seq<DepView>,
    x: Seq<char>,
)
    requires
        parent_acyclic(deps),
        parent_unique(deps),
        edges_closed(StoreView { items: old_items, deps: deps }),
        forall|id: Seq<char>| id != x ==> #[trigger] has_id(new_items, id) == has_id(old_items, id),
    ensures
        ({
            let nd = crate::ops::deps_remove_id(deps, x);
            parent_acyclic(nd) && parent_unique(nd) && edges_closed(
                StoreView { items: new_items, deps: nd },
            )
        }),
{
    let nd = crate::ops::deps_remove_id(deps, x);
    crate::ops::lemma_deps_remove_id_props(deps, x);
    lemma_edge_subset_keeps_acyclic(deps, nd);
    lemma_remove_id_unique(deps, x);
    assert forall|k: int| 0 <= k < nd.len() implies has_id(
        new_items,
        (#[trigger] nd[k]).from_id,
    ) && has_id(new_items, nd[k].to_id) by {
        assert(has_dep(deps, nd[k]));
        let w = choose|w: int| 0 <= w < deps.len() && deps[w] == nd[k];
        assert(has_id(old_items, deps[w].from_id) && has_id(old_items, deps[w].to_id));
        assert(nd[k].from_id != x && nd[k].to_id != x);
    }
}

/// A chain that arrives at an id passes through an edge pointing at it.
proof fn lemma_chain_end_has_edge(deps: Seq<DepView>, start: Seq<char>, x: Seq<char>, n: nat)
    requires
        1 <= n,
        anc_n(deps, start, n) == Some(x),
    ensures
        exists|i: int|
            0 <= i < deps.len() && (#[trigger] deps[i]).dep_type == crate::model::DepType::Parent
                && deps[i].to_id == x,
{
    lemma_anc_compose(deps, start, (n - 1) as nat, 1);
    match anc_n(deps, start, (n - 1) as nat) {
        Some(y) => {
            assert(anc_n(deps, y, 1) == parent_of(deps, y)) by {
                assert(anc_n(deps, y, 0) == Some(y));
            }
            assert(parent_of(deps, y) == Some(x));
            crate::ops::lemma_parent_of_is_edge(deps, y);
        },
        None => {
            assert(false);
        },
    }
}

/// Linking a freshly created item under a parent keeps the relation acyclic:
/// the new item is referenced by no existing edge, so the one new edge cannot
/// close a cycle.
pub proof fn lemma_new_item_edge_keeps_acyclic(deps: Seq<DepView>, nid: Seq<char>, rp: Seq<char>)
    requires
        parent_acyclic(deps),
        nid != rp,
        forall|i: int|
            0 <= i < deps.len() ==> (#[trigger] deps[i]).from_id != nid && deps[i].to_id != nid,
    ensures
        parent_acyclic(
            deps.push(DepView { from_id: nid, to_id: rp, dep_type: crate::model::DepType::Parent }),
        ),
{
    let e = DepView { from_id: nid, to_id: rp, dep_type: crate::model::DepType::Parent };
    let nd = deps.push(e);
    lemma_parent_of_push(deps, e);
    assert(parent_of(deps, nid) is None) by {
        if parent_of(deps, nid) is Some {
            crate::ops::lemma_parent_of_is_edge(deps, nid);
        }
    }
    assert(!(exists|n: nat| 1 <= n && anc_n(deps, rp, n) == Some(nid))) by {
        if exists|n: nat| 1 <= n && anc_n(deps, rp, n) == Some(nid) {
            let n = choose|n: nat| 1 <= n && anc_n(deps, rp, n) == Some(nid);
            lemma_chain_end_has_edge(deps, rp, nid, n);
        }
    }
    lemma_parent_rewire_keeps_acyclic(deps, nd, nid, rp);
}

/// Linking a fresh item also keeps parent edges unique and edges closed:
/// nothing pointed at or out of the new item before, and both endpoints of
/// the one new edge exist afterwards.
pub proof fn lemma_new_item_edge_keeps_unique_and_closed(
    items: Seq<ItemView>,
    deps: Seq<DepView>,
    nid: Seq<char>,
    rp: Seq<char>,
)
    requires
        parent_unique(deps),
        edges_closed(StoreView { items: items, deps: deps }),
        has_id(items, nid),
        has_id(items, rp),
        forall|i: int|
            0 <= i < deps.len() ==> (#[trigger] deps[i]).from_id != nid && deps[i].to_id != nid,
    ensures
        ({
            let nd = deps.push(
                DepView { from_id: nid, to_id: rp, dep_type: crate::model::DepType::Parent },
            );
            parent_unique(nd) && edges_closed(StoreView { items: items, deps: nd })
        }),
{
    let e = DepView { from_id: nid, to_id: rp, dep_type: crate::model::DepType::Parent };
    let nd = deps.push(e);
    assert forall|i: int, j: int|
        0 <= i < nd.len() && 0 <= j < nd.len() && (#[trigger] nd[i]).dep_type
            == crate::model::DepType::Parent && (#[trigger] nd[j]).dep_type
            == crate::model::DepType::Parent && nd[i].from_id == nd[j].from_id implies i == j by {
        if i < deps.len() && j < deps.len() {
            assert(nd[i] == deps[i] && nd[j] == deps[j]);
        } else if i < deps.len() && j == deps.len() {
            assert(nd[i] == deps[i]);
            assert(false);
        } else if j < deps.len() && i == deps.len() {
            assert(nd[j] == deps[j]);
            assert(false);
        }
    }
    assert forall|k: int| 0 <= k < nd.len() implies has_id(
        items,
        (#[trigger] nd[k]).from_id,
    ) && has_id(items, nd[k].to_id) by {
        if k < deps.len() {
            assert(nd[k] == deps[k]);
        } else {
            assert(nd[k] == e);
        }
    }
}

/// What remains after removing the edges between one pair of ids: exactly
/// the other edges, each an edge of the original list.
proof fn lemma_remove_pair_props(deps: Seq<DepView>, f: Seq<char>, t: Seq<char>)
    ensures
        forall|j: int|
            0 <= j < crate::ops::deps_remove_pair(deps, f, t).len() ==> !((
            #[trigger] crate::ops::deps_remove_pair(deps, f, t)[j]).from_id == f
                && crate::ops::deps_remove_pair(deps, f, t)[j].to_id == t) && has_dep(
                deps,
                crate::ops::deps_remove_pair(deps, f, t)[j],
            ),
    decreases deps.len(),
{
    if deps.len() > 0 {
        let rest = deps.drop_first();
        lemma_remove_pair_props(rest, f, t);
        let rr = crate::ops::deps_remove_pair(rest, f, t);
        let full = crate::ops::deps_remove_pair(deps, f, t);
        if deps[0].from_id == f && deps[0].to_id == t {
            assert(full == rr);
            assert forall|j: int| 0 <= j < full.len() implies !((#[trigger] full[j]).from_id == f
                && full[j].to_id == t) && has_dep(deps, full[j]) by {
                let w = choose|k: int| 0 <= k < rest.len() && rest[k] == rr[j];
                assert(deps[w + 1] == rr[j]);
            }
        } else {
            assert(full =~= seq![deps[0]] + rr);
            assert forall|j: int| 0 <= j < full.len() implies !((#[trigger] full[j]).from_id == f
                && full[j].to_id == t) && has_dep(deps, full[j]) by {
                if j == 0 {
                    assert(full[0] == deps[0]);
                } else {
                    assert(full[j] == rr[j - 1]);
                    let w = choose|k: int| 0 <= k < rest.len() && rest[k] == rr[j - 1];
                    assert(deps[w + 1] == rr[j - 1]);
                }
            }
        }
    }
}

/// Removing the edges between one pair of ids keeps the parent relation
/// acyclic, parent edges unique, and edges closed.
pub proof fn lemma_remove_dep_keeps_graph(
    items: Seq<ItemView>,
    deps: Seq<DepView>,
    f: Seq<char>,
    t: Seq<char>,
)
    requires
        parent_acyclic(deps),
        parent_unique(deps),
        edges_closed(StoreView { items: items, deps: deps }),
    ensures
        ({
            let nd = crate::ops::deps_remove_pair(deps, f, t);
            parent_acyclic(nd) && parent_unique(nd) && edges_closed(
                StoreView { items: items, deps: nd },
            )
        }),
{
    let nd = crate::ops::deps_remove_pair(deps, f, t);
    lemma_remove_pair_props(deps, f, t);
    lemma_edge_subset_keeps_acyclic(deps, nd);
    assert forall|i: int, j: int|
        0 <= i < nd.len() && 0 <= j < nd.len() && (#[trigger] nd[i]).dep_type
            == crate::model::DepType::Parent && (#[trigger] nd[j]).dep_type
            == crate::model::DepType::Parent && nd[i].from_id == nd[j].from_id implies i == j by {
        if i != j {
            lemma_remove_pair_distinct(deps, f, t, i, j);
        }
    }
    assert forall|k: int| 0 <= k < nd.len() implies has_id(
        items,
        (#[trigger] nd[k]).from_id,
    ) && has_id(items, nd[k].to_id) by {
        assert(has_dep(deps, nd[k]));
        let w = choose|w: int| 0 <= w < deps.len() && deps[w] == nd[k];
        assert(has_id(items, deps[w].from_id) && has_id(items, deps[w].to_id));
    }
}

/// Distinct positions of the pair-filtered list never carry two parent edges
/// from the same id, because the original list did not.
proof fn lemma_remove_pair_distinct(
    deps: Seq<DepView>,
    f: Seq<char>,
    t: Seq<char>,
    i: int,
    j: int,
)
    requires
        parent_unique(deps),
        0 <= i < crate::ops::deps_remove_pair(deps, f, t).len(),
        0 <= j < crate::ops::deps_remove_pair(deps, f, t).len(),
        i != j,
        crate::ops::deps_remove_pair(deps, f, t)[i].dep_type == crate::model::DepType::Parent,
        crate::ops::deps_remove_pair(deps, f, t)[j].dep_type == crate::model::DepType::Parent,
    ensures
        crate::ops::deps_remove_pair(deps, f, t)[i].from_id != crate::ops::deps_remove_pair(
            deps,
            f,
            t,
        )[j].from_id,
    decreases deps.len(),
{
    let rest = deps.drop_first();
    assert(parent_unique(rest)) by {
        assert forall|a: int, b: int|
            0 <= a < rest.len() && 0 <= b < rest.len() && (#[trigger] rest[a]).dep_type
                == crate::model::DepType::Parent && (#[trigger] rest[b]).dep_type
                == crate::model::DepType::Parent && rest[a].from_id == rest[b].from_id implies a
            == b by {
            assert(rest[a] == deps[a + 1] && rest[b] == deps[b + 1]);
        }
    }
    let rr = crate::ops::deps_remove_pair(rest, f, t);
    let full = crate::ops::deps_remove_pair(deps, f, t);
    if deps[0].from_id == f && deps[0].to_id == t {
        assert(full == rr);
        lemma_remove_pair_distinct(rest, f, t, i, j);
    } else {
        assert(full =~= seq![deps[0]] + rr);
        if i == 0 || j == 0 {
            let other = if i == 0 {
                j
            } else {
                i
            };
            assert(full[other] == rr[other - 1]);
            lemma_remove_pair_props(rest, f, t);
            assert(has_dep(rest, rr[other - 1]));
            let w = choose|k: int| 0 <= k < rest.len() && rest[k] == rr[other - 1];
            assert(deps[w + 1] == full[other]);
            assert(full[0] == deps[0]);
            if full[i].from_id == full[j].from_id {
                assert(false);
            }
        } else {
            assert(full[i] == rr[i - 1] && full[j] == rr[j - 1]);
            lemma_remove_pair_distinct(rest, f, t, i - 1, j - 1);
        }
    }
}

/// At most one parent edge leaves any id.
pub open spec fn parent_unique(deps: Seq<DepView>) -> bool {
    forall|i: int, j: int|
        0 <= i < deps.len() && 0 <= j < deps.len() && (#[trigger] deps[i]).dep_type
            == crate::model::DepType::Parent && (#[trigger] deps[j]).dep_type
            == crate::model::DepType::Parent && deps[i].from_id == deps[j].from_id ==> i == j
}

/// When parent edges are unique, any parent edge is the parent lookup.
proof fn lemma_unique_edge_is_parent(deps: Seq<DepView>, i: int)
    requires
        parent_unique(deps),
        0 <= i < deps.len(),
        deps[i].dep_type == crate::model::DepType::Parent,
    ensures
        parent_of(deps, deps[i].from_id) == Some(deps[i].to_id),
    decreases deps.len(),
{
    if deps[0].dep_type == crate::model::DepType::Parent && deps[0].from_id == deps[i].from_id {
        assert(i == 0);
    } else {
        assert(i >= 1);
        let rest = deps.drop_first();
        assert(rest[i - 1] == deps[i]);
        assert(parent_unique(rest)) by {
            assert forall|x: int, y: int|
                0 <= x < rest.len() && 0 <= y < rest.len() && (#[trigger] rest[x]).dep_type
                    == crate::model::DepType::Parent && (#[trigger] rest[y]).dep_type
                    == crate::model::DepType::Parent && rest[x].from_id
                    == rest[y].from_id implies x == y by {
                assert(rest[x] == deps[x + 1] && rest[y] == deps[y + 1]);
            }
        }
        lemma_unique_edge_is_parent(rest, i - 1);
    }
}

/// Removing edges never creates a cycle: when every surviving edge existed
/// before and parent edges were unique, the smaller relation is acyclic too.
pub proof fn lemma_edge_subset_keeps_acyclic(od: Seq<DepView>, nd: Seq<DepView>)
    requires
        parent_acyclic(od),
        parent_unique(od),
        forall|j: int|
            0 <= j < nd.len() ==> exists|i: int| 0 <= i < od.len() && od[i] == #[trigger] nd[j],
    ensures
        parent_acyclic(nd),
{
    assert forall|x: Seq<char>, n: nat| 1 <= n implies anc_n(nd, x, n) != Some(x) by {
        if anc_n(nd, x, n) == Some(x) {
            lemma_subset_chain_transfer(od, nd, x, n);
            assert(false);
        }
    }
}

/// A chain in a sub-relation of a parent-unique relation is a chain of the
/// full relation.
proof fn lemma_subset_chain_transfer(od: Seq<DepView>, nd: Seq<DepView>, start: Seq<char>, n: nat)
    requires
        parent_unique(od),
        forall|j: int|
            0 <= j < nd.len() ==> exists|i: int| 0 <= i < od.len() && od[i] == #[trigger] nd[j],
        anc_n(nd, start, n) is Some,
    ensures
        anc_n(od, start, n) == anc_n(nd, start, n),
    decreases n,
{
    if n > 0 {
        assert(anc_n(nd, start, (n - 1) as nat) is Some);
        lemma_subset_chain_transfer(od, nd, start, (n - 1) as nat);
        let y = anc_n(nd, start, (n - 1) as nat).unwrap();
        assert(parent_of(nd, y) is Some);
        crate::ops::lemma_parent_of_is_edge(nd, y);
        let j = choose|j: int|
            0 <= j < nd.len() && (#[trigger] nd[j]).dep_type == crate::model::DepType::Parent
                && nd[j].from_id == y && nd[j].to_id == parent_of(nd, y).unwrap();
        let i = choose|i: int| 0 <= i < od.len() && od[i] == nd[j];
        lemma_unique_edge_is_parent(od, i);
        assert(parent_of(od, y) == parent_of(nd, y));
    }
}

/// What remains after removing one id's parent edges: exactly the other
/// edges, each an edge of the original list.
proof fn lemma_remove_parent_edges_props(deps: Seq<DepView>, c: Seq<char>)
    ensures
        forall|j: int|
            0 <= j < deps_remove_parent_edges(deps, c).len() ==> !((
            #[trigger] deps_remove_parent_edges(deps, c)[j]).from_id == c
                && deps_remove_parent_edges(deps, c)[j].dep_type
                == crate::model::DepType::Parent) && has_dep(
                deps,
                deps_remove_parent_edges(deps, c)[j],
            ),
        forall|i: int|
            0 <= i < deps.len() && !((#[trigger] deps[i]).from_id == c && deps[i].dep_type
                == crate::model::DepType::Parent) ==> has_dep(
                deps_remove_parent_edges(deps, c),
                deps[i],
            ),
    decreases deps.len(),
{
    if deps.len() > 0 {
        let rest = deps.drop_first();
        lemma_remove_parent_edges_props(rest, c);
        let rr = deps_remove_parent_edges(rest, c);
        let full = deps_remove_parent_edges(deps, c);
        if deps[0].from_id == c && deps[0].dep_type == crate::model::DepType::Parent {
            assert(full == rr);
            assert forall|j: int| 0 <= j < full.len() implies !((#[trigger] full[j]).from_id == c
                && full[j].dep_type == crate::model::DepType::Parent) && has_dep(
                deps,
                full[j],
            ) by {
                let w = choose|k: int| 0 <= k < rest.len() && rest[k] == rr[j];
                assert(deps[w + 1] == rr[j]);
            }
            assert forall|i: int|
                0 <= i < deps.len() && !((#[trigger] deps[i]).from_id == c && deps[i].dep_type
                    == crate::model::DepType::Parent) implies has_dep(full, deps[i]) by {
                assert(i >= 1);
                assert(rest[i - 1] == deps[i]);
            }
        } else {
            assert(full =~= seq![deps[0]] + rr);
            assert forall|j: int| 0 <= j < full.len() implies !((#[trigger] full[j]).from_id == c
                && full[j].dep_type == crate::model::DepType::Parent) && has_dep(
                deps,
                full[j],
            ) by {
                if j == 0 {
                    assert(full[0] == deps[0]);
                } else {
                    assert(full[j] == rr[j - 1]);
                    let w = choose|k: int| 0 <= k < rest.len() && rest[k] == rr[j - 1];
                    assert(deps[w + 1] == rr[j - 1]);
                }
            }
            assert forall|i: int|
                0 <= i < deps.len() && !((#[trigger] deps[i]).from_id == c && deps[i].dep_type
                    == crate::model::DepType::Parent) implies has_dep(full, deps[i]) by {
                if i == 0 {
                    assert(full[0] == deps[0]);
                } else {
                    assert(rest[i - 1] == deps[i]);
                    assert(has_dep(rr, deps[i]));
                    let w = choose|k: int| 0 <= k < rr.len() && rr[k] == deps[i];
                    assert(full[w + 1] == deps[i]);
                }
            }
        }
    }
}

/// Parent-edge uniqueness survives dropping one id's parent edges.
proof fn lemma_remove_parent_edges_unique(deps: Seq<DepView>, c: Seq<char>)
    requires
        parent_unique(deps),
    ensures
        parent_unique(deps_remove_parent_edges(deps, c)),
    decreases deps.len(),
{
    if deps.len() > 0 {
        let rest = deps.drop_first();
        assert(parent_unique(rest)) by {
            assert forall|x: int, y: int|
                0 <= x < rest.len() && 0 <= y < rest.len() && (#[trigger] rest[x]).dep_type
                    == crate::model::DepType::Parent && (#[trigger] rest[y]).dep_type
                    == crate::model::DepType::Parent && rest[x].from_id
                    == rest[y].from_id implies x == y by {
                assert(rest[x] == deps[x + 1] && rest[y] == deps[y + 1]);
            }
        }
        lemma_remove_parent_edges_unique(rest, c);
        lemma_remove_parent_edges_props(rest, c);
        let rr = deps_remove_parent_edges(rest, c);
        let full = deps_remove_parent_edges(deps, c);
        if deps[0].from_id == c && deps[0].dep_type == crate::model::DepType::Parent {
            assert(full == rr);
        } else {
            assert(full =~= seq![deps[0]] + rr);
            assert forall|x: int, y: int|
                0 <= x < full.len() && 0 <= y < full.len() && (#[trigger] full[x]).dep_type
                    == crate::model::DepType::Parent && (#[trigger] full[y]).dep_type
                    == crate::model::DepType::Parent && full[x].from_id
                    == full[y].from_id implies x == y by {
                if x == 0 && y > 0 {
                    assert(full[y] == rr[y - 1]);
                    assert(has_dep(rest, rr[y - 1]));
                    let w = choose|k: int| 0 <= k < rest.len() && rest[k] == rr[y - 1];
                    assert(deps[w + 1] == full[y]);
                    assert(false);
                } else if y == 0 && x > 0 {
                    assert(full[x] == rr[x - 1]);
                    assert(has_dep(rest, rr[x - 1]));
                    let w = choose|k: int| 0 <= k < rest.len() && rest[k] == rr[x - 1];
                    assert(deps[w + 1] == full[x]);
                    assert(false);
                } else if x > 0 && y > 0 {
                    assert(full[x] == rr[x - 1] && full[y] == rr[y - 1]);
                }
            }
        }
    }
}

/// After `set_parent` rewires a child, parent edges are still unique and, as
/// long as child and parent name existing items, no edge dangles.
pub proof fn lemma_set_parent_keeps_unique_and_closed(
    items: Seq<ItemView>,
    deps: Seq<DepView>,
    c: Seq<char>,
    p: Seq<char>,
)
    requires
        parent_unique(deps),
        edges_closed(StoreView { items: items, deps: deps }),
        has_id(items, c),
        has_id(items, p),
    ensures
        ({
            let nd = deps_remove_parent_edges(deps, c).push(
                DepView { from_id: c, to_id: p, dep_type: crate::model::DepType::Parent },
            );
            parent_unique(nd) && edges_closed(StoreView { items: items, deps: nd })
        }),
{
    let e = DepView { from_id: c, to_id: p, dep_type: crate::model::DepType::Parent };
    let rr = deps_remove_parent_edges(deps, c);
    let nd = rr.push(e);
    lemma_remove_parent_edges_props(deps, c);
    lemma_remove_parent_edges_unique(deps, c);
    assert forall|x: int, y: int|
        0 <= x < nd.len() && 0 <= y < nd.len() && (#[trigger] nd[x]).dep_type
            == crate::model::DepType::Parent && (#[trigger] nd[y]).dep_type
            == crate::model::DepType::Parent && nd[x].from_id == nd[y].from_id implies x == y by {
        if x < rr.len() && y == rr.len() {
            assert(nd[x] == rr[x]);
            assert(false);
        } else if y < rr.len() && x == rr.len() {
            assert(nd[y] == rr[y]);
            assert(false);
        } else if x < rr.len() && y < rr.len() {
            assert(nd[x] == rr[x] && nd[y] == rr[y]);
        }
    }
    assert forall|k: int| 0 <= k < nd.len() implies has_id(
        items,
        (#[trigger] nd[k]).from_id,
    ) && has_id(items, nd[k].to_id) by {
        if k < rr.len() {
            assert(nd[k] == rr[k]);
            assert(has_dep(deps, rr[k]));
            let w = choose|w: int| 0 <= w < deps.len() && deps[w] == rr[k];
            assert(has_id(items, deps[w].from_id) && has_id(items, deps[w].to_id));
        } else {
            assert(nd[k] == e);
        }
    }
}

/// Every edge mentioning a deleted item is gone and every other edge
/// survives — this is what `delete_item` leaves behind; restated here over
/// the prefix-match machinery so the property reads on its own.
pub proof fn lemma_delete_cleans_edges(deps: Seq<DepView>, x: Seq<char>)
    ensures
        forall|j: int|
            0 <= j < crate::ops::deps_remove_id(deps, x).len()
                ==> (#[trigger] crate::ops::deps_remove_id(deps, x)[j]).from_id != x
                && crate::ops::deps_remove_id(deps, x)[j].to_id != x,
        forall|i: int|
            0 <= i < deps.len() && (#[trigger] deps[i]).from_id != x && deps[i].to_id != x
                ==> has_dep(crate::ops::deps_remove_id(deps, x), deps[i]),
{
    crate::ops::lemma_deps_remove_id_props(deps, x);
    assert forall|j: int|
        0 <= j < crate::ops::deps_remove_id(deps, x).len() implies (
    #[trigger] crate::ops::deps_remove_id(deps, x)[j]).from_id != x
        && crate::ops::deps_remove_id(deps, x)[j].to_id != x by {}
}

} // verus!
