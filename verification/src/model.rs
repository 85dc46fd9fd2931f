//! The document model: work items, dependency edges, and the document
//! (`Store`) that holds them, together with its structural invariants.

use vstd::prelude::*;

use crate::strutil::lex_lt;
use crate::strutil::lemma_lex_lt_asym;
use crate::strutil::lemma_lex_lt_total;
use crate::strutil::lemma_lex_lt_trans;
use crate::strutil::str_eq;
use crate::strutil::str_lt;

verus! {

/// The kind of a work item.
#[derive(Debug, Clone, Copy, PartialEq, Eq, Structural)]
pub enum ItemType {
    Epic,
    Feature,
    Task,
}

/// The lifecycle state of a work item. `Closed` is the only terminal state.
#[derive(Debug, Clone, Copy, PartialEq, Eq, Structural)]
pub enum Status {
    Open,
    Closed,
}

/// The kind of a dependency edge: structural containment (`Parent`) or
/// readiness gating (`Blocks`).
#[derive(Debug, Clone, Copy, PartialEq, Eq, Structural)]
pub enum DepType {
    Parent,
    Blocks,
}

impl ItemType {
    /// The lower-case name of this kind.
    pub fn label(&self) -> (r: String)
        ensures
            r@ == match *self {
                ItemType::Epic => "epic"@,
                ItemType::Feature => "feature"@,
                ItemType::Task => "task"@,
            },
    {
        match self {
            ItemType::Epic => "epic".to_owned(),
            ItemType::Feature => "feature".to_owned(),
            ItemType::Task => "task".to_owned(),
        }
    }
}

impl Status {
    /// The lower-case name of this state.
    pub fn label(&self) -> (r: String)
        ensures
            r@ == match *self {
                Status::Open => "open"@,
                Status::Closed => "closed"@,
            },
    {
        match self {
            Status::Open => "open".to_owned(),
            Status::Closed => "closed".to_owned(),
        }
    }
}

impl DepType {
    /// The lower-case name of this edge kind.
    pub fn label(&self) -> (r: String)
        ensures
            r@ == match *self {
                DepType::Parent => "parent"@,
                DepType::Blocks => "blocks"@,
            },
    {
        match self {
            DepType::Parent => "parent".to_owned(),
            DepType::Blocks => "blocks".to_owned(),
        }
    }
}

/// One character lowered to ASCII lower case.
pub open spec fn lower_char(c: char) -> char {
    if 'A' <= c && c <= 'Z' {
        (((c as u32) + 32) as u8) as char
    } else {
        c
    }
}

/// Text lowered to ASCII lower case, character by character.
pub open spec fn lower_seq(s: Seq<char>) -> Seq<char> {
    s.map_values(|c: char| lower_char(c))
}

/// The given text lowered to ASCII lower case.
fn ascii_lower(s: &str) -> (r: String)
    ensures
        r@ == lower_seq(s@),
{
    let cs = crate::strutil::chars_of(s);
    let mut out: Vec<char> = Vec::new();
    let mut i: usize = 0;
    while i < cs.len()
        invariant
            i <= cs@.len(),
            cs@ == s@,
            out@.len() == i,
            forall|k: int| 0 <= k < i ==> out@[k] == lower_char(s@[k]),
        decreases cs@.len() - i,
    {
        let c = cs[i];
        if 'A' <= c && c <= 'Z' {
            out.push((((c as u32) + 32) as u8) as char);
        } else {
            out.push(c);
        }
        i = i + 1;
    }
    proof {
        assert(out@ =~= lower_seq(s@));
    }
    crate::strutil::chars_to_string(&out)
}

/// Reads a work-item kind from command text, ignoring ASCII case: exactly
/// the tokens `epic`, `feature`, and `task` are accepted.
pub fn parse_item_type(s: &str) -> (r: Result<ItemType, String>)
    ensures
        match r {
            Ok(ItemType::Epic) => lower_seq(s@) == "epic"@,
            Ok(ItemType::Feature) => lower_seq(s@) == "feature"@,
            Ok(ItemType::Task) => lower_seq(s@) == "task"@,
            Err(_) => lower_seq(s@) != "epic"@ && lower_seq(s@) != "feature"@ && lower_seq(s@)
                != "task"@,
        },
{
    let low = ascii_lower(s);
    if crate::strutil::str_eq(low.as_str(), "epic") {
        Ok(ItemType::Epic)
    } else if crate::strutil::str_eq(low.as_str(), "feature") {
        Ok(ItemType::Feature)
    } else if crate::strutil::str_eq(low.as_str(), "task") {
        Ok(ItemType::Task)
    } else {
        let mut m = String::new();
        m.append("unknown item type: ");
        m.append(s);
        Err(m)
    }
}

/// Reads a lifecycle state from command text, ignoring ASCII case: exactly
/// the tokens `open` and `closed` are accepted — legacy snapshot tokens are
/// not command input.
pub fn parse_status(s: &str) -> (r: Result<Status, String>)
    ensures
        match r {
            Ok(Status::Open) => lower_seq(s@) == "open"@,
            Ok(Status::Closed) => lower_seq(s@) == "closed"@,
            Err(_) => lower_seq(s@) != "open"@ && lower_seq(s@) != "closed"@,
        },
{
    let low = ascii_lower(s);
    if crate::strutil::str_eq(low.as_str(), "open") {
        Ok(Status::Open)
    } else if crate::strutil::str_eq(low.as_str(), "closed") {
        Ok(Status::Closed)
    } else {
        let mut m = String::new();
        m.append("unknown status: ");
        m.append(s);
        m.append(" (valid: open, closed)");
        Err(m)
    }
}

impl core::str::FromStr for ItemType {
    type Err = String;

    fn from_str(s: &str) -> Result<Self, String> {
        parse_item_type(s)
    }
}

impl core::str::FromStr for Status {
    type Err = String;

    fn from_str(s: &str) -> Result<Self, String> {
        parse_status(s)
    }
}

/// The accepted tokens are already lower case, so each kind's label parses
/// back to it: the name round trip holds.
pub proof fn lemma_labels_parse_back()
    ensures
        lower_seq("epic"@) == "epic"@,
        lower_seq("feature"@) == "feature"@,
        lower_seq("task"@) == "task"@,
        lower_seq("open"@) == "open"@,
        lower_seq("closed"@) == "closed"@,
{
    reveal_strlit("epic");
    reveal_strlit("feature");
    reveal_strlit("task");
    reveal_strlit("open");
    reveal_strlit("closed");
    assert(lower_seq("epic"@) =~= "epic"@);
    assert(lower_seq("feature"@) =~= "feature"@);
    assert(lower_seq("task"@) =~= "task"@);
    assert(lower_seq("open"@) =~= "open"@);
    assert(lower_seq("closed"@) =~= "closed"@);
}

/// Mathematical image of a work item: every string as a character sequence.
pub ghost struct ItemView {
    pub id: Seq<char>,
    pub title: Seq<char>,
    pub description: Option<Seq<char>>,
    pub item_type: ItemType,
    pub status: Status,
    pub priority: u8,
    pub claimed_by: Option<Seq<char>>,
    pub created_at: i64,
    pub updated_at: i64,
}

/// Mathematical image of a dependency edge.
pub ghost struct DepView {
    pub from_id: Seq<char>,
    pub to_id: Seq<char>,
    pub dep_type: DepType,
}

/// The view of an optional string.
pub open spec fn opt_str_view(o: Option<String>) -> Option<Seq<char>> {
    match o {
        Some(s) => Some(s@),
        None => None,
    }
}

/// A work item.
#[derive(Debug)]
pub struct Item {
    pub id: String,
    pub title: String,
    pub description: Option<String>,
    pub item_type: ItemType,
    pub status: Status,
    pub priority: u8,
    pub claimed_by: Option<String>,
    pub created_at: i64,
    pub updated_at: i64,
}

impl View for Item {
    type V = ItemView;

    open spec fn view(&self) -> ItemView {
        ItemView {
            id: self.id@,
            title: self.title@,
            description: opt_str_view(self.description),
            item_type: self.item_type,
            status: self.status,
            priority: self.priority,
            claimed_by: opt_str_view(self.claimed_by),
            created_at: self.created_at,
            updated_at: self.updated_at,
        }
    }
}

/// Clones an optional string, keeping its view.
pub fn clone_opt_string(o: &Option<String>) -> (r: Option<String>)
    ensures
        opt_str_view(r) == opt_str_view(*o),
{
    match o {
        Some(s) => Some(s.clone()),
        None => None,
    }
}

impl Clone for Item {
    fn clone(&self) -> (r: Self)
        ensures
            r@ == self@,
    {
        Item {
            id: self.id.clone(),
            title: self.title.clone(),
            description: clone_opt_string(&self.description),
            item_type: self.item_type,
            status: self.status,
            priority: self.priority,
            claimed_by: clone_opt_string(&self.claimed_by),
            created_at: self.created_at,
            updated_at: self.updated_at,
        }
    }
}

/// A dependency edge.
#[derive(Debug)]
pub struct Dep {
    pub from_id: String,
    pub to_id: String,
    pub dep_type: DepType,
}

impl View for Dep {
    type V = DepView;

    open spec fn view(&self) -> DepView {
        DepView { from_id: self.from_id@, to_id: self.to_id@, dep_type: self.dep_type }
    }
}

impl Clone for Dep {
    fn clone(&self) -> (r: Self)
        ensures
            r@ == self@,
    {
        Dep {
            from_id: self.from_id.clone(),
            to_id: self.to_id.clone(),
            dep_type: self.dep_type,
        }
    }
}

/// Compares two edges for equality.
pub fn dep_eq(a: &Dep, b: &Dep) -> (r: bool)
    ensures
        r == (a@ == b@),
{
    let kinds_equal = match (a.dep_type, b.dep_type) {
        (DepType::Parent, DepType::Parent) => true,
        (DepType::Blocks, DepType::Blocks) => true,
        _ => false,
    };
    kinds_equal && str_eq(a.from_id.as_str(), b.from_id.as_str()) && str_eq(
        a.to_id.as_str(),
        b.to_id.as_str(),
    )
}

/// Mathematical image of a document.
pub ghost struct StoreView {
    pub items: Seq<ItemView>,
    pub deps: Seq<DepView>,
}

/// The document: a collection of items (kept strictly sorted by id, so ids are
/// unique and the layout is canonical) and a collection of dependency edges.
#[derive(Debug)]
pub struct Store {
    pub items: Vec<Item>,
    pub deps: Vec<Dep>,
}

impl View for Store {
    type V = StoreView;

    open spec fn view(&self) -> StoreView {
        StoreView {
            items: self.items@.map_values(|it: Item| it@),
            deps: self.deps@.map_values(|d: Dep| d@),
        }
    }
}

impl Clone for Store {
    fn clone(&self) -> (r: Self)
        ensures
            r@ == self@,
    {
        let items = clone_items(&self.items);
        let deps = clone_deps(&self.deps);
        let s = Store { items, deps };
        proof {
            assert(s@.items == self@.items);
            assert(s@.deps == self@.deps);
        }
        s
    }
}

/// Clones a vector of items, keeping its view.
fn clone_items(v: &Vec<Item>) -> (r: Vec<Item>)
    ensures
        r@.map_values(|it: Item| it@) == v@.map_values(|it: Item| it@),
        r@.len() == v@.len(),
{
    let mut r: Vec<Item> = Vec::new();
    let mut i: usize = 0;
    while i < v.len()
        invariant
            i <= v@.len(),
            r@.len() == i,
            forall|k: int| 0 <= k < i ==> r@[k]@ == v@[k]@,
        decreases v@.len() - i,
    {
        r.push(v[i].clone());
        i = i + 1;
    }
    proof {
        assert(r@.map_values(|it: Item| it@) =~= v@.map_values(|it: Item| it@));
    }
    r
}

/// Clones a vector of edges, keeping its view.
pub fn clone_deps(v: &Vec<Dep>) -> (r: Vec<Dep>)
    ensures
        r@.map_values(|d: Dep| d@) == v@.map_values(|d: Dep| d@),
        r@.len() == v@.len(),
{
    let mut r: Vec<Dep> = Vec::new();
    let mut i: usize = 0;
    while i < v.len()
        invariant
            i <= v@.len(),
            r@.len() == i,
            forall|k: int| 0 <= k < i ==> r@[k]@ == v@[k]@,
        decreases v@.len() - i,
    {
        r.push(v[i].clone());
        i = i + 1;
    }
    proof {
        assert(r@.map_values(|d: Dep| d@) =~= v@.map_values(|d: Dep| d@));
    }
    r
}

/// Items are strictly sorted by id, so every id appears at most once.
pub open spec fn items_sorted(items: Seq<ItemView>) -> bool {
    forall|i: int, j: int| 0 <= i < j < items.len() ==> lex_lt(items[i].id, items[j].id)
}

/// Some item carries this id.
pub open spec fn has_id(items: Seq<ItemView>, id: Seq<char>) -> bool {
    exists|i: int| 0 <= i < items.len() && items[i].id == id
}

/// The item carrying this id (meaningful when `has_id` holds and ids are unique).
pub open spec fn item_of(items: Seq<ItemView>, id: Seq<char>) -> ItemView {
    items[choose|i: int| 0 <= i < items.len() && items[i].id == id]
}

/// In a sorted item sequence, the witness index of an id is unique, so any
/// item found at an index with that id is `item_of` that id.
pub proof fn lemma_sorted_id_unique(items: Seq<ItemView>, i: int, j: int)
    requires
        items_sorted(items),
        0 <= i < items.len(),
        0 <= j < items.len(),
        items[i].id == items[j].id,
    ensures
        i == j,
{
    if i < j {
        assert(lex_lt(items[i].id, items[j].id));
        lemma_lex_lt_asym(items[i].id, items[j].id);
    } else if j < i {
        assert(lex_lt(items[j].id, items[i].id));
        lemma_lex_lt_asym(items[j].id, items[i].id);
    }
}

/// Every edge references items that exist.
pub open spec fn edges_closed(s: StoreView) -> bool {
    forall|k: int|
        0 <= k < s.deps.len() ==> has_id(s.items, #[trigger] s.deps[k].from_id) && has_id(
            s.items,
            s.deps[k].to_id,
        )
}

/// The document's representation invariant: items strictly sorted by id.
pub open spec fn store_wf(s: StoreView) -> bool {
    items_sorted(s.items)
}

impl Default for Store {
    fn default() -> (r: Self)
        ensures
            r@.items.len() == 0,
            r@.deps.len() == 0,
            store_wf(r@),
    {
        Store { items: Vec::new(), deps: Vec::new() }
    }
}

impl Store {
    /// An empty document.
    pub fn new() -> (r: Self)
        ensures
            r@.items.len() == 0,
            r@.deps.len() == 0,
            store_wf(r@),
    {
        Store { items: Vec::new(), deps: Vec::new() }
    }

    /// Finds the index of the item with the given id.
    pub fn find_index(&self, id: &String) -> (r: Option<usize>)
        ensures
            match r {
                Some(i) => i < self@.items.len() && self@.items[i as int].id == id@,
                None => !has_id(self@.items, id@),
            },
    {
        let mut i: usize = 0;
        while i < self.items.len()
            invariant
                i <= self@.items.len(),
                forall|k: int| 0 <= k < i ==> self@.items[k].id != id@,
            decreases self@.items.len() - i,
        {
            if str_eq(self.items[i].id.as_str(), id.as_str()) {
                return Some(i);
            }
            i = i + 1;
        }
        None
    }

    /// Looks up the item with the given id.
    pub fn get_item(&self, id: &String) -> (r: Option<&Item>)
        ensures
            match r {
                Some(it) => has_id(self@.items, id@) && it@.id == id@,
                None => !has_id(self@.items, id@),
            },
            store_wf(self@) && has_id(self@.items, id@) ==> (r matches Some(it) && it@ == item_of(
                self@.items,
                id@,
            )),
    {
        match self.find_index(id) {
            Some(i) => {
                let it = &self.items[i];
                proof {
                    if store_wf(self@) {
                        let w = choose|k: int|
                            0 <= k < self@.items.len() && self@.items[k].id == id@;
                        lemma_sorted_id_unique(self@.items, i as int, w);
                    }
                }
                Some(it)
            },
            None => None,
        }
    }

    /// True when the document holds an item with this id.
    pub fn contains_id(&self, id: &String) -> (r: bool)
        ensures
            r == has_id(self@.items, id@),
    {
        match self.find_index(id) {
            Some(_) => true,
            None => false,
        }
    }

    /// The number of items.
    pub fn items_len(&self) -> (r: usize)
        ensures
            r == self@.items.len(),
    {
        self.items.len()
    }

    /// Inserts an item at its sorted position, or replaces the item already
    /// carrying the same id. All other items are untouched.
    pub fn put_item(&mut self, item: Item) -> (replaced: bool)
        requires
            store_wf(old(self)@),
        ensures
            store_wf(final(self)@),
            final(self)@.deps == old(self)@.deps,
            has_id(final(self)@.items, item@.id),
            item_of(final(self)@.items, item@.id) == item@,
            forall|id: Seq<char>|
                id != item@.id ==> #[trigger] has_id(final(self)@.items, id) == has_id(
                    old(self)@.items,
                    id,
                ),
            forall|id: Seq<char>|
                id != item@.id && has_id(final(self)@.items, id) ==> #[trigger] item_of(
                    final(self)@.items,
                    id,
                ) == item_of(old(self)@.items, id),
            replaced == has_id(old(self)@.items, item@.id),
    {
        let ghost pre = self@.items;
        if let Some(i) = self.find_index(&item.id) {
            let ghost iv = item@;
            let ghost w = i as int;
            proof {
                assert(pre[w].id == item@.id);
            }
            self.items.set(i, item);
            proof {
                let post = self@.items;
                assert(post =~= pre.update(w, iv));
                assert forall|a: int, b: int| 0 <= a < b < post.len() implies lex_lt(
                    post[a].id,
                    post[b].id,
                ) by {
                    assert(post[a].id == pre[a].id);
                    assert(post[b].id == pre[b].id);
                }
                lemma_put_lookup(pre, post, w, iv);
            }
            return true;
        }
        let mut i: usize = 0;
        while i < self.items.len() && str_lt(&self.items[i].id, &item.id)
            invariant
                i <= self@.items.len(),
                self@.items == pre,
                self@.deps == old(self)@.deps,
                store_wf(self@),
                !has_id(pre, item@.id),
                forall|k: int| 0 <= k < i ==> lex_lt(pre[k].id, item@.id),
            decreases self@.items.len() - i,
        {
            i = i + 1;
        }
        proof {
            if (i as int) < pre.len() {
                assert(!lex_lt(pre[i as int].id, item@.id));
                assert(pre[i as int].id != item@.id);
                lemma_lex_lt_total(pre[i as int].id, item@.id);
                assert(lex_lt(item@.id, pre[i as int].id));
            }
        }
        let ghost iv = item@;
        self.items.insert(i, item);
        proof {
            let post = self@.items;
            assert(post =~= pre.insert(i as int, iv));
            assert(post.len() == pre.len() + 1);
            assert(forall|k: int| 0 <= k < i ==> post[k] == pre[k]);
            assert(post[i as int] == iv);
            assert(forall|k: int| i < k < post.len() ==> post[k] == pre[k - 1]);
            assert forall|a: int, b: int| 0 <= a < b < post.len() implies lex_lt(
                post[a].id,
                post[b].id,
            ) by {
                let ii = i as int;
                if a < ii && b < ii {
                } else if a == ii && b > ii {
                    // item@.id < pre[i].id <= pre[b-1].id
                    if b - 1 > ii {
                        lemma_lex_lt_trans(iv.id, pre[ii].id, pre[b - 1].id);
                    }
                } else if a < ii && b == ii {
                } else if a < ii && b > ii {
                    if b - 1 > a {
                        assert(lex_lt(pre[a].id, pre[b - 1].id));
                    } else {
                        assert(b - 1 == a);
                        assert(lex_lt(pre[a].id, iv.id));
                        assert(lex_lt(iv.id, pre[ii].id));
                        assert(pre[b - 1] == pre[a]);
                        lemma_lex_lt_trans(pre[a].id, iv.id, pre[ii].id);
                        assert(false);
                    }
                } else {
                }
            }
            lemma_insert_lookup(pre, post, i as int, iv);
        }
        false
    }
}

/// After replacing index `i` (whose id is `iv.id`) in a sorted sequence,
/// lookups of every id behave as stated in `put_item`'s contract.
proof fn lemma_put_lookup(pre: Seq<ItemView>, post: Seq<ItemView>, i: int, iv: ItemView)
    requires
        items_sorted(pre),
        items_sorted(post),
        0 <= i < pre.len(),
        post == pre.update(i, iv),
        pre[i].id == iv.id,
    ensures
        has_id(post, iv.id),
        item_of(post, iv.id) == iv,
        forall|id: Seq<char>| id != iv.id ==> #[trigger] has_id(post, id) == has_id(pre, id),
        forall|id: Seq<char>|
            id != iv.id && has_id(post, id) ==> #[trigger] item_of(post, id) == item_of(pre, id),
{
    assert(post[i].id == iv.id);
    assert(has_id(post, iv.id));
    let w = choose|k: int| 0 <= k < post.len() && post[k].id == iv.id;
    lemma_sorted_id_unique(post, w, i);
    assert forall|id: Seq<char>| id != iv.id implies #[trigger] has_id(post, id) == has_id(
        pre,
        id,
    ) by {
        if has_id(post, id) {
            let k = choose|k: int| 0 <= k < post.len() && post[k].id == id;
            assert(k != i);
            assert(pre[k].id == id);
        }
        if has_id(pre, id) {
            let k = choose|k: int| 0 <= k < pre.len() && pre[k].id == id;
            assert(k != i);
            assert(post[k].id == id);
        }
    }
    assert forall|id: Seq<char>| id != iv.id && has_id(post, id) implies #[trigger] item_of(
        post,
        id,
    ) == item_of(pre, id) by {
        let k1 = choose|k: int| 0 <= k < post.len() && post[k].id == id;
        assert(pre[k1].id == id);
        let k2 = choose|k: int| 0 <= k < pre.len() && pre[k].id == id;
        lemma_sorted_id_unique(pre, k1, k2);
    }
}

/// After inserting `iv` at position `i` in a sorted sequence that did not
/// carry `iv.id`, lookups behave as stated in `put_item`'s contract.
proof fn lemma_insert_lookup(pre: Seq<ItemView>, post: Seq<ItemView>, i: int, iv: ItemView)
    requires
        items_sorted(pre),
        items_sorted(post),
        0 <= i <= pre.len(),
        post == pre.insert(i, iv),
        !has_id(pre, iv.id),
    ensures
        has_id(post, iv.id),
        item_of(post, iv.id) == iv,
        forall|id: Seq<char>| id != iv.id ==> #[trigger] has_id(post, id) == has_id(pre, id),
        forall|id: Seq<char>|
            id != iv.id && has_id(post, id) ==> #[trigger] item_of(post, id) == item_of(pre, id),
{
    assert(post[i].id == iv.id);
    assert(has_id(post, iv.id));
    let w = choose|k: int| 0 <= k < post.len() && post[k].id == iv.id;
    lemma_sorted_id_unique(post, w, i);
    assert forall|id: Seq<char>| id != iv.id implies #[trigger] has_id(post, id) == has_id(
        pre,
        id,
    ) by {
        if has_id(post, id) {
            let k = choose|k: int| 0 <= k < post.len() && post[k].id == id;
            assert(k != i);
            if k < i {
                assert(pre[k].id == id);
            } else {
                assert(pre[k - 1].id == id);
            }
        }
        if has_id(pre, id) {
            let k = choose|k: int| 0 <= k < pre.len() && pre[k].id == id;
            if k < i {
                assert(post[k].id == id);
            } else {
                assert(post[k + 1].id == id);
            }
        }
    }
    assert forall|id: Seq<char>| id != iv.id && has_id(post, id) implies #[trigger] item_of(
        post,
        id,
    ) == item_of(pre, id) by {
        let k1 = choose|k: int| 0 <= k < post.len() && post[k].id == id;
        assert(k1 != i);
        let pk = if k1 < i {
            k1
        } else {
            k1 - 1
        };
        assert(pre[pk].id == id);
        let k2 = choose|k: int| 0 <= k < pre.len() && pre[k].id == id;
        lemma_sorted_id_unique(pre, pk, k2);
    }
}

} // verus!
