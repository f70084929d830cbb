use vstd::prelude::*;
use vstd::multiset::Multiset;
use crate::errors::CoreError;
use crate::items::{
    entries_sorted, entry_desc, entry_descs, entry_le, entry_scan_count, forest_ids,
    forest_ids_distinct, forest_scan_count, forest_sorted, frontend_matches, item_desc,
    item_descs, item_has_node, item_ids, item_ids_distinct, item_scanned_ok,
    lemma_child_ids_subset, lemma_entry_scan_count, lemma_forest_scan_count_concat,
    lemma_item_ids_contains_own, lemma_renamed_item_ids, lemma_scan_le_total,
    lemma_scan_le_trans, renamed_item, scan_le, FileSystemItem, FileSystemItemFrontend, RawEntry,
};
use crate::paths::{is_note_file_name, should_scan_children, str_eq, str_lex_le};

verus! {

broadcast use {vstd::seq_lib::group_to_multiset_ensures, vstd::multiset::group_multiset_axioms};

/// Whether the id-to-path index holds an entry for `id`.
pub open spec fn idx_has(m: Seq<(u64, String)>, id: u64) -> bool {
    exists|i: int| 0 <= i < m.len() && (#[trigger] m[i]).0 == id
}

/// The position of `id` in the index; meaningful when `idx_has` holds and the
/// keys are distinct.
pub open spec fn idx_pos(m: Seq<(u64, String)>, id: u64) -> int {
    choose|i: int| 0 <= i < m.len() && (#[trigger] m[i]).0 == id
}

/// The path the index holds for `id`.
pub open spec fn idx_path(m: Seq<(u64, String)>, id: u64) -> Seq<char> {
    m[idx_pos(m, id)].1@
}

/// No id keys two entries.
pub open spec fn idx_distinct(m: Seq<(u64, String)>) -> bool {
    forall|i: int, j: int| 0 <= i < j < m.len() ==> (#[trigger] m[i]).0 != (#[trigger] m[j]).0
}

/// With distinct keys the position of an id is the only one carrying it.
proof fn lemma_idx_pos_unique(m: Seq<(u64, String)>, id: u64, i: int)
    requires
        idx_distinct(m),
        0 <= i < m.len(),
        m[i].0 == id,
    ensures
        idx_pos(m, id) == i,
        idx_path(m, id) == m[i].1@,
{
    let j = idx_pos(m, id);
    assert(0 <= j < m.len() && m[j].0 == id);
}

/// The session state: the derived key (or none while locked), the workspace
/// tree of opened items, the id-to-path index, and the id counter. All core
/// operations go through methods of this type, and every method preserves
/// `wf`: index keys are unique and below the counter, every id in the tree is
/// registered in the index, no id occurs twice in the tree, opened roots have
/// no parent, and no two roots share a path.
pub struct AppState {
    key: Option<[u8; 32]>,
    opened_items: Vec<FileSystemItem>,
    id_to_path_map: Vec<(u64, String)>,
    next_id: u64,
}

impl AppState {
    /// The key held for this session, if one was derived.
    pub closed spec fn key_view(self) -> Option<Seq<u8>> {
        match self.key {
            Some(k) => Some(k@),
            None => None,
        }
    }

    /// The roots of the workspace tree, in opening order.
    pub closed spec fn items(self) -> Seq<FileSystemItem> {
        self.opened_items@
    }

    /// Whether the index maps `id` to a live path.
    pub closed spec fn registered(self, id: u64) -> bool {
        idx_has(self.id_to_path_map@, id)
    }

    /// The path the index holds for `id`.
    pub closed spec fn path_of(self, id: u64) -> Seq<char> {
        idx_path(self.id_to_path_map@, id)
    }

    /// The next id the state will assign.
    pub closed spec fn next_id_spec(self) -> u64 {
        self.next_id
    }

    /// The state's invariant; established by `default` and preserved by every
    /// method.
    pub closed spec fn wf(self) -> bool {
        &&& idx_distinct(self.id_to_path_map@)
        &&& forall|i: int|
            0 <= i < self.id_to_path_map@.len() ==> (#[trigger] self.id_to_path_map@[i]).0
                < self.next_id
        &&& forall|id: u64|
            forest_ids(self.opened_items@).contains(id) ==> idx_has(self.id_to_path_map@, id)
        &&& forest_ids_distinct(self.opened_items@)
        &&& forall|i: int|
            0 <= i < self.opened_items@.len() ==> (#[trigger] self.opened_items@[i]).parent_id
                is None
    }

    /// Every registered id is below the id counter, so a fresh id never
    /// collides with anything live.
    pub proof fn lemma_registered_below_counter(self, id: u64)
        requires
            self.wf(),
            self.registered(id),
        ensures
            id < self.next_id_spec(),
    {
        let i = idx_pos(self.id_to_path_map@, id);
        assert(0 <= i < self.id_to_path_map@.len() && self.id_to_path_map@[i].0 == id);
    }

    /// Clears the whole session: the key is dropped, the tree and the index
    /// are emptied, and ids start over.
    pub fn reset(&mut self)
        ensures
            final(self).wf(),
            final(self).key_view() is None,
            final(self).items() == Seq::<FileSystemItem>::empty(),
            forall|id: u64| !final(self).registered(id),
            final(self).next_id_spec() == 0,
    {
        self.key = None;
        self.opened_items.clear();
        self.id_to_path_map.clear();
        self.next_id = 0;
    }

    /// Installs a freshly derived key, replacing any previous one: re-deriving
    /// logs the previous identity out.
    pub fn set_key(&mut self, key: [u8; 32])
        ensures
            final(self).key_view() == Some(key@),
            final(self).items() == old(self).items(),
            final(self).next_id_spec() == old(self).next_id_spec(),
            forall|id: u64| final(self).registered(id) == old(self).registered(id),
            forall|id: u64| #[trigger] final(self).path_of(id) == old(self).path_of(id),
            old(self).wf() ==> final(self).wf(),
    {
        self.key = Some(key);
    }

    /// Hands out the session key, or refuses when no one is logged in.
    pub fn get_encryption_key(&self) -> (r: Result<[u8; 32], CoreError>)
        ensures
            r matches Ok(k) ==> self.key_view() == Some(k@),
            r matches Err(e) ==> e == CoreError::NotAuthenticated && self.key_view() is None,
    {
        match self.key {
            Some(k) => Ok(k),
            None => Err(CoreError::NotAuthenticated),
        }
    }

    /// Whether a key is present.
    pub fn is_logged_in(&self) -> (r: bool)
        ensures
            r == (self.key_view() is Some),
    {
        self.key.is_some()
    }

    /// The id the session will assign next; callers use it to keep id
    /// arithmetic inside bounds before asking for many ids at once.
    pub fn next_id(&self) -> (r: u64)
        ensures
            r == self.next_id_spec(),
    {
        self.next_id
    }

    /// Assigns the next id of this session.
    fn generate_id(&mut self) -> (r: u64)
        requires
            old(self).next_id < u64::MAX,
        ensures
            r == old(self).next_id,
            final(self).next_id == old(self).next_id + 1,
            final(self).key == old(self).key,
            final(self).opened_items == old(self).opened_items,
            final(self).id_to_path_map == old(self).id_to_path_map,
    {
        let id = self.next_id;
        self.next_id = self.next_id + 1;
        id
    }

    /// Registers a path under a fresh id and returns the id.
    pub fn add_path_mapping(&mut self, path: String) -> (r: u64)
        requires
            old(self).wf(),
            old(self).next_id_spec() < u64::MAX,
        ensures
            final(self).wf(),
            r == old(self).next_id_spec(),
            final(self).next_id_spec() == old(self).next_id_spec() + 1,
            !old(self).registered(r),
            final(self).registered(r),
            final(self).path_of(r) == path@,
            forall|id: u64|
                id != r ==> final(self).registered(id) == old(self).registered(id),
            forall|id: u64|
                id != r && old(self).registered(id) ==> final(self).path_of(id) == old(
                    self,
                ).path_of(id),
            final(self).items() == old(self).items(),
            final(self).key_view() == old(self).key_view(),
    {
        let id = self.generate_id();
        proof {
            if old(self).registered(id) {
                old(self).lemma_registered_below_counter(id);
            }
        }
        self.id_to_path_map.push((id, path));
        proof {
            let m0 = old(self).id_to_path_map@;
            let m1 = self.id_to_path_map@;
            assert(m1 == m0.push((id, path)));
            assert(m1[m0.len() as int].0 == id);
            assert(idx_has(m1, id));
            lemma_idx_pos_unique(m1, id, m0.len() as int);
            assert forall|id2: u64| id2 != id implies idx_has(m1, id2) == idx_has(m0, id2) by {
                if idx_has(m0, id2) {
                    let i = idx_pos(m0, id2);
                    assert(m1[i].0 == id2);
                }
                if idx_has(m1, id2) {
                    let i = idx_pos(m1, id2);
                    assert(0 <= i < m0.len());
                    assert(m0[i].0 == id2);
                }
            }
            assert forall|id2: u64| id2 != id && idx_has(m0, id2) implies idx_path(m1, id2)
                == idx_path(m0, id2) by {
                let i = idx_pos(m0, id2);
                assert(m0[i].0 == id2);
                assert(m1[i] == m0[i]);
                lemma_idx_pos_unique(m1, id2, i);
            }
        }
        id
    }

    /// Looks an id up in the index: the live path, or nothing for an id that
    /// was never assigned or was closed.
    pub fn get_path_from_id(&self, id: u64) -> (r: Option<String>)
        requires
            self.wf(),
        ensures
            r matches Some(p) ==> self.registered(id) && p@ == self.path_of(id),
            r is None ==> !self.registered(id),
    {
        let n = self.id_to_path_map.len();
        let mut i: usize = 0;
        while i < n
            invariant
                i <= n,
                n == self.id_to_path_map@.len(),
                self.wf(),
                forall|j: int| 0 <= j < i ==> (#[trigger] self.id_to_path_map@[j]).0 != id,
            decreases n - i,
        {
            if self.id_to_path_map[i].0 == id {
                proof {
                    lemma_idx_pos_unique(self.id_to_path_map@, id, i as int);
                }
                return Some(self.id_to_path_map[i].1.clone());
            }
            i += 1;
        }
        None
    }

    /// Drops an id from the index. The id must not be one the tree still
    /// holds: tree nodes lose their index entry only when they are closed.
    pub fn remove_from_id_mapping(&mut self, id: u64)
        requires
            old(self).wf(),
            !forest_ids(old(self).items()).contains(id),
        ensures
            final(self).wf(),
            !final(self).registered(id),
            forall|id2: u64|
                id2 != id ==> final(self).registered(id2) == old(self).registered(id2),
            forall|id2: u64|
                id2 != id && old(self).registered(id2) ==> final(self).path_of(id2) == old(
                    self,
                ).path_of(id2),
            final(self).items() == old(self).items(),
            final(self).key_view() == old(self).key_view(),
            final(self).next_id_spec() == old(self).next_id_spec(),
    {
        let n = self.id_to_path_map.len();
        let mut i: usize = 0;
        while i < n
            invariant
                i <= n,
                n == self.id_to_path_map@.len(),
                self == old(self),
                self.wf(),
                !forest_ids(self.items()).contains(id),
                forall|j: int| 0 <= j < i ==> (#[trigger] self.id_to_path_map@[j]).0 != id,
            decreases n - i,
        {
            if self.id_to_path_map[i].0 == id {
                self.id_to_path_map.remove(i);
                proof {
                    let m0 = old(self).id_to_path_map@;
                    let m1 = self.id_to_path_map@;
                    assert(m1 == m0.remove(i as int));
                    assert forall|j: int| 0 <= j < m1.len() implies #[trigger] m1[j] == if j < i {
                        m0[j]
                    } else {
                        m0[j + 1]
                    } by {}
                    assert(idx_distinct(m1)) by {
                        assert forall|a: int, b: int| 0 <= a < b < m1.len() implies m1[a].0
                            != m1[b].0 by {
                            let a0 = if a < i { a } else { a + 1 };
                            let b0 = if b < i { b } else { b + 1 };
                            assert(m1[a] == m0[a0] && m1[b] == m0[b0]);
                            assert(m0[a0].0 != m0[b0].0);
                        }
                    }
                    assert forall|id2: u64| id2 != id implies idx_has(m1, id2) == idx_has(
                        m0,
                        id2,
                    ) by {
                        if idx_has(m0, id2) {
                            let k = idx_pos(m0, id2);
                            if k < i {
                                assert(m1[k].0 == id2);
                            } else {
                                assert(m0[k].0 == id2 && m0[i as int].0 == id);
                                assert(k != i);
                                assert(m1[k - 1].0 == id2);
                            }
                        }
                        if idx_has(m1, id2) {
                            let k = idx_pos(m1, id2);
                            if k < i {
                                assert(m0[k].0 == id2);
                            } else {
                                assert(m0[k + 1].0 == id2);
                            }
                        }
                    }
                    assert(!idx_has(m1, id)) by {
                        if idx_has(m1, id) {
                            let k = idx_pos(m1, id);
                            if k < i {
                                assert(m0[k].0 == id);
                            } else {
                                assert(m0[k + 1].0 == id);
                                assert(m0[i as int].0 == id);
                                assert((i as int) < k + 1);
                            }
                        }
                    }
                    assert forall|id2: u64| id2 != id && idx_has(m0, id2) implies idx_path(
                        m1,
                        id2,
                    ) == idx_path(m0, id2) by {
                        let k = idx_pos(m0, id2);
                        if k < i {
                            assert(m1[k] == m0[k]);
                            lemma_idx_pos_unique(m1, id2, k);
                        } else {
                            assert(k != i);
                            assert(m1[k - 1] == m0[k]);
                            lemma_idx_pos_unique(m1, id2, k - 1);
                        }
                    }
                }
                return ;
            }
            i += 1;
        }
    }

    /// The id of the first opened root whose path is `path`, if any.
    pub open spec fn first_opened(items: Seq<FileSystemItem>, path: Seq<char>) -> Option<u64>
        decreases items.len(),
    {
        if items.len() == 0 {
            None
        } else if items[0].path@ == path {
            Some(items[0].id)
        } else {
            Self::first_opened(items.drop_first(), path)
        }
    }

    /// No root carries the path exactly when the search comes back empty.
    pub proof fn lemma_first_opened_none(items: Seq<FileSystemItem>, path: Seq<char>)
        ensures
            (Self::first_opened(items, path) is None) <==> (forall|i: int|
                0 <= i < items.len() ==> (#[trigger] items[i]).path@ != path),
        decreases items.len(),
    {
        if items.len() > 0 {
            let d = items.drop_first();
            Self::lemma_first_opened_none(d, path);
            assert(forall|i: int| 0 <= i < d.len() ==> #[trigger] d[i] == items[i + 1]);
            if Self::first_opened(items, path) is None {
                assert forall|i: int| 0 <= i < items.len() implies (#[trigger] items[i]).path@
                    != path by {
                    if i >= 1 {
                        assert(d[i - 1] == items[i]);
                    }
                }
            } else {
                if items[0].path@ != path {
                    assert(exists|j: int| 0 <= j < d.len() && (#[trigger] d[j]).path@ == path);
                    let j = choose|j: int| 0 <= j < d.len() && (#[trigger] d[j]).path@ == path;
                    assert(items[j + 1].path@ == path);
                }
            }
        }
    }

    /// Idempotent open: a root just added under a path that no other root
    /// carried is exactly what the next search for that path finds.
    pub proof fn lemma_open_idempotent(
        items: Seq<FileSystemItem>,
        item: FileSystemItem,
        path: Seq<char>,
    )
        requires
            Self::first_opened(items, path) is None,
            item.path@ == path,
        ensures
            Self::first_opened(items.push(item), path) == Some(item.id),
        decreases items.len(),
    {
        if items.len() == 0 {
            assert(items.push(item)[0] == item);
        } else {
            assert(items.push(item).drop_first() =~= items.drop_first().push(item));
            Self::lemma_open_idempotent(items.drop_first(), item, path);
        }
    }

    /// Checks whether a path is already opened as a root; returns the id of
    /// the first root carrying it.
    pub fn is_opened(&self, path: &str) -> (r: Option<u64>)
        ensures
            r == Self::first_opened(self.items(), path@),
    {
        let n = self.opened_items.len();
        let mut i: usize = 0;
        proof {
            assert(self.items().skip(0) =~= self.items());
        }
        while i < n
            invariant
                i <= n,
                n == self.opened_items@.len(),
                Self::first_opened(self.items(), path@) == Self::first_opened(
                    self.items().skip(i as int),
                    path@,
                ),
            decreases n - i,
        {
            proof {
                assert(self.items().skip(i as int)[0] == self.items()[i as int]);
                assert(self.items().skip(i as int).drop_first() =~= self.items().skip(i + 1));
            }
            if str_eq(self.opened_items[i].path.as_str(), path) {
                return Some(self.opened_items[i].id);
            }
            i += 1;
        }
        proof {
            assert(self.items().skip(n as int) =~= Seq::<FileSystemItem>::empty());
        }
        None
    }

    /// Adds a root to the tree unless one with the same path is already
    /// there; reports whether it was added. The item must bring only fresh,
    /// registered, duplicate-free ids, which is what a scan hands back.
    pub fn add_opened_item(&mut self, item: FileSystemItem) -> (r: bool)
        requires
            old(self).wf(),
            item.parent_id is None,
            item_ids_distinct(item),
            forall|id: u64| item_ids(item).contains(id) ==> old(self).registered(id),
            forall|id: u64|
                item_ids(item).contains(id) ==> !forest_ids(old(self).items()).contains(id),
        ensures
            final(self).wf(),
            r == (Self::first_opened(old(self).items(), item.path@) is None),
            r ==> final(self).items() == old(self).items().push(item),
            !r ==> *final(self) == *old(self),
            final(self).key_view() == old(self).key_view(),
            final(self).next_id_spec() == old(self).next_id_spec(),
            forall|id: u64| final(self).registered(id) == old(self).registered(id),
            forall|id: u64| #[trigger] final(self).path_of(id) == old(self).path_of(id),
    {
        match self.is_opened(item.path.as_str()) {
            Some(_) => false,
            None => {
                proof {
                    Self::lemma_first_opened_none(self.items(), item.path@);
                }
                self.opened_items.push(item);
                proof {
                    let s0 = old(self).items();
                    let s1 = self.items();
                    assert(s1 == s0.push(item));
                    assert(forall|i: int| 0 <= i < s0.len() ==> s1[i] == s0[i]);
                    assert(s1[s0.len() as int] == item);
                    assert forall|id: u64|
                        forest_ids(s1).contains(id) implies idx_has(
                        self.id_to_path_map@,
                        id,
                    ) by {
                        let i = choose|i: int|
                            0 <= i < s1.len() && item_ids(#[trigger] s1[i]).contains(id);
                        if i < s0.len() {
                            assert(forest_ids(s0).contains(id));
                        }
                    }
                    assert forall|id: u64|
                        forest_ids(s0).contains(id) implies forest_ids(s1).contains(id) by {
                        let i = choose|i: int|
                            0 <= i < s0.len() && item_ids(#[trigger] s0[i]).contains(id);
                        assert(item_ids(s1[i]).contains(id));
                    }
                }
                true
            },
        }
    }

    /// Drops every id of a subtree from the index. The subtree must be
    /// disjoint from the tree the state still holds.
    fn remove_item_ids(&mut self, item: &FileSystemItem)
        requires
            old(self).wf(),
            item_ids_distinct(*item),
            forall|id: u64|
                item_ids(*item).contains(id) ==> !forest_ids(old(self).items()).contains(id),
        ensures
            final(self).wf(),
            final(self).items() == old(self).items(),
            final(self).key_view() == old(self).key_view(),
            final(self).next_id_spec() == old(self).next_id_spec(),
            forall|id2: u64|
                final(self).registered(id2) == (old(self).registered(id2) && !item_ids(
                    *item,
                ).contains(id2)),
            forall|id2: u64|
                final(self).registered(id2) ==> final(self).path_of(id2) == old(self).path_of(
                    id2,
                ),
        decreases *item,
    {
        proof {
            lemma_item_ids_contains_own(*item);
        }
        self.remove_from_id_mapping(item.id);
        if let Some(cs) = &item.children {
            let n = cs.len();
            let mut j: usize = 0;
            while j < n
                invariant
                    j <= n,
                    n == cs@.len(),
                    item.children == Some(*cs),
                    item_ids_distinct(*item),
                    self.wf(),
                    self.items() == old(self).items(),
                    self.key_view() == old(self).key_view(),
                    self.next_id_spec() == old(self).next_id_spec(),
                    forall|id2: u64|
                        self.registered(id2) == (old(self).registered(id2) && id2 != item.id && !(
                        exists|k: int|
                            0 <= k < j && item_ids(#[trigger] cs@[k]).contains(id2))),
                    forall|id2: u64|
                        self.registered(id2) ==> self.path_of(id2) == old(self).path_of(id2),
                    forall|id: u64|
                        item_ids(*item).contains(id) ==> !forest_ids(self.items()).contains(id),
                decreases n - j,
            {
                proof {
                    lemma_child_ids_subset(*item, j as int);
                }
                let ghost pre = *self;
                self.remove_item_ids(&cs[j]);
                proof {
                    assert forall|id2: u64| self.registered(id2) == (old(self).registered(id2)
                        && id2 != item.id && !(exists|k: int|
                        0 <= k < j + 1 && item_ids(#[trigger] cs@[k]).contains(id2))) by {
                        if self.registered(id2) {
                            assert(pre.registered(id2) && !item_ids(cs@[j as int]).contains(id2));
                        }
                        if old(self).registered(id2) && id2 != item.id && !(exists|k: int|
                            0 <= k < j + 1 && item_ids(#[trigger] cs@[k]).contains(id2)) {
                            assert(!item_ids(cs@[j as int]).contains(id2));
                            assert(pre.registered(id2));
                        }
                    }
                }
                j += 1;
            }
            proof {
                assert forall|id2: u64| #[trigger]
                    item_ids(*item).contains(id2) == (id2 == item.id || exists|k: int|
                    0 <= k < cs@.len() && item_ids(#[trigger] cs@[k]).contains(id2)) by {}
            }
        }
    }

    /// Closes a root item: removes it from the tree and drops its id and all
    /// of its descendants' ids from the index, atomically with respect to the
    /// state's observers. A no-op when no root carries the id.
    pub fn remove_opened_item(&mut self, item_id: u64)
        requires
            old(self).wf(),
        ensures
            final(self).wf(),
            final(self).key_view() == old(self).key_view(),
            final(self).next_id_spec() == old(self).next_id_spec(),
            (forall|i: int|
                0 <= i < old(self).items().len() ==> (#[trigger] old(self).items()[i]).id
                    != item_id) ==> *final(self) == *old(self),
            forall|i: int|
                0 <= i < old(self).items().len() && (#[trigger] old(self).items()[i]).id
                    == item_id ==> {
                    &&& final(self).items() == old(self).items().remove(i)
                    &&& forall|id2: u64|
                        final(self).registered(id2) == (old(self).registered(id2) && !item_ids(
                            old(self).items()[i],
                        ).contains(id2))
                    &&& forall|id2: u64|
                        final(self).registered(id2) ==> final(self).path_of(id2) == old(
                            self,
                        ).path_of(id2)
                },
    {
        let n = self.opened_items.len();
        let mut i: usize = 0;
        while i < n
            invariant
                i <= n,
                n == self.opened_items@.len(),
                self == old(self),
                self.wf(),
                forall|j: int| 0 <= j < i ==> (#[trigger] self.opened_items@[j]).id != item_id,
            decreases n - i,
        {
            if self.opened_items[i].id == item_id {
                let item = self.opened_items.remove(i);
                proof {
                    let s0 = old(self).items();
                    let s1 = self.items();
                    assert(s1 == s0.remove(i as int));
                    assert(forall|j: int|
                        0 <= j < s1.len() ==> #[trigger] s1[j] == (if j < i {
                            s0[j]
                        } else {
                            s0[j + 1]
                        }));
                    assert(item == s0[i as int]);
                    // the removed subtree is disjoint from what remains
                    assert forall|id: u64|
                        item_ids(item).contains(id) implies !forest_ids(s1).contains(id) by {
                        if forest_ids(s1).contains(id) {
                            let j = choose|j: int|
                                0 <= j < s1.len() && item_ids(#[trigger] s1[j]).contains(id);
                            let j0 = if j < i { j } else { j + 1 };
                            assert(item_ids(s0[j0]).contains(id));
                            assert(item_ids(s0[i as int]).disjoint(item_ids(s0[j0])));
                        }
                    }
                    // what remains is still registered and duplicate-free
                    assert forall|id: u64|
                        forest_ids(s1).contains(id) implies forest_ids(s0).contains(id) by {
                        let j = choose|j: int|
                            0 <= j < s1.len() && item_ids(#[trigger] s1[j]).contains(id);
                        let j0 = if j < i { j } else { j + 1 };
                        assert(item_ids(s0[j0]).contains(id));
                    }
                }
                self.remove_item_ids(&item);
                proof {
                    let s0 = old(self).items();
                    assert forall|k: int|
                        0 <= k < s0.len() && (#[trigger] s0[k]).id == item_id implies k
                        == i as int by {
                        if k != i {
                            lemma_item_ids_contains_own(s0[k]);
                            lemma_item_ids_contains_own(s0[i as int]);
                            assert(item_ids(s0[k]).disjoint(item_ids(s0[i as int])));
                        }
                    }
                }
                return ;
            }
            i += 1;
        }
    }


    /// The position of an id in the index, if registered.
    fn index_pos_of(&self, id: u64) -> (r: Option<usize>)
        requires
            self.wf(),
        ensures
            r matches Some(i) ==> i < self.id_to_path_map@.len()
                && (#[trigger] self.id_to_path_map@[i as int]).0 == id,
            r is None ==> !self.registered(id),
    {
        let n = self.id_to_path_map.len();
        let mut i: usize = 0;
        while i < n
            invariant
                i <= n,
                n == self.id_to_path_map@.len(),
                forall|j: int| 0 <= j < i ==> (#[trigger] self.id_to_path_map@[j]).0 != id,
            decreases n - i,
        {
            if self.id_to_path_map[i].0 == id {
                return Some(i);
            }
            i += 1;
        }
        None
    }

    /// Renames a tracked item: the index entry and the node's path and name
    /// are updated in place; the id and the node's position in the tree are
    /// unchanged. Fails when the id is not registered.
    pub fn update_note_path(
        &mut self,
        id: u64,
        parent_id: Option<u64>,
        new_path: String,
        name: String,
    ) -> (r: Result<(), CoreError>)
        requires
            old(self).wf(),
        ensures
            final(self).wf(),
            r is Ok <==> old(self).registered(id),
            r matches Err(e) ==> e == CoreError::NotFound && *final(self) == *old(self),
            r is Ok ==> {
                &&& forall|id2: u64|
                    final(self).registered(id2) == old(self).registered(id2)
                &&& final(self).path_of(id) == new_path@
                &&& forall|id2: u64|
                    id2 != id && old(self).registered(id2) ==> final(self).path_of(id2) == old(
                        self,
                    ).path_of(id2)
                &&& final(self).items().len() == old(self).items().len()
                &&& forall|k: int|
                    0 <= k < old(self).items().len() ==> renamed_item(
                        #[trigger] old(self).items()[k],
                        final(self).items()[k],
                        id,
                        parent_id,
                        new_path@,
                        name@,
                    )
                &&& final(self).key_view() == old(self).key_view()
                &&& final(self).next_id_spec() == old(self).next_id_spec()
            },
    {
        // update the index first; an unregistered id fails the whole call
        let i = match self.index_pos_of(id) {
            Some(i) => i,
            None => {
                return Err(CoreError::NotFound);
            },
        };
        let path_for_index = new_path.clone();
        self.id_to_path_map[i] = (id, path_for_index);
        proof {
            let m0 = old(self).id_to_path_map@;
            let m1 = self.id_to_path_map@;
            assert(m1 == m0.update(i as int, (id, new_path)));
            assert(forall|j: int| 0 <= j < m1.len() && j != i ==> m1[j] == m0[j]);
            assert(m1[i as int].0 == id && m0[i as int].0 == id);
            assert(idx_distinct(m1)) by {
                assert forall|a: int, b: int| 0 <= a < b < m1.len() implies m1[a].0
                    != m1[b].0 by {
                    assert(m1[a].0 == m0[a].0 && m1[b].0 == m0[b].0);
                }
            }
            assert forall|id2: u64| idx_has(m1, id2) == idx_has(m0, id2) by {
                if idx_has(m0, id2) {
                    let k = idx_pos(m0, id2);
                    assert(m1[k].0 == m0[k].0);
                }
                if idx_has(m1, id2) {
                    let k = idx_pos(m1, id2);
                    assert(m0[k].0 == m1[k].0);
                }
            }
            lemma_idx_pos_unique(m1, id, i as int);
            assert(idx_path(m1, id) == new_path@);
            assert forall|id2: u64| id2 != id && idx_has(m0, id2) implies idx_path(m1, id2)
                == idx_path(m0, id2) by {
                let k = idx_pos(m0, id2);
                assert(m0[k].0 == id2);
                assert(k != i);
                assert(m1[k] == m0[k]);
                lemma_idx_pos_unique(m1, id2, k);
            }
        }
        // then rebuild the tree with the one matching node renamed
        let ghost s0 = self.opened_items@;
        let len = self.opened_items.len();
        let mut new_items: Vec<FileSystemItem> = Vec::new();
        let mut j: usize = 0;
        while j < len
            invariant
                j <= len,
                len == self.opened_items@.len(),
                new_items@.len() == j,
                s0 == self.opened_items@,
                forall|k: int|
                    0 <= k < j ==> renamed_item(
                        #[trigger] s0[k],
                        new_items@[k],
                        id,
                        parent_id,
                        new_path@,
                        name@,
                    ),
            decreases len - j,
        {
            new_items.push(rename_item_exec(&self.opened_items[j], id, parent_id, &new_path, &name));
            j += 1;
        }
        self.opened_items = new_items;
        proof {
            let s1 = self.opened_items@;
            assert forall|k: int| 0 <= k < s1.len() implies item_ids(#[trigger] s1[k]) =~= item_ids(
                s0[k],
            ) && (item_ids_distinct(s0[k]) ==> item_ids_distinct(s1[k])) by {
                lemma_renamed_item_ids(s0[k], s1[k], id, parent_id, new_path@, name@);
            }
            assert forall|id2: u64|
                forest_ids(s1).contains(id2) == forest_ids(s0).contains(id2) by {
                if forest_ids(s1).contains(id2) {
                    let k = choose|k: int|
                        0 <= k < s1.len() && item_ids(#[trigger] s1[k]).contains(id2);
                    assert(item_ids(s0[k]).contains(id2));
                }
                if forest_ids(s0).contains(id2) {
                    let k = choose|k: int|
                        0 <= k < s0.len() && item_ids(#[trigger] s0[k]).contains(id2);
                    assert(item_ids(s1[k]).contains(id2));
                }
            }
        }
        Ok(())
    }

    /// Builds one level of the workspace tree from a raw listing: sorts it
    /// (directories first, names ascending), assigns every entry a fresh id
    /// registered under its path, classifies notes by name, and descends into
    /// readable, non-hidden directories, each child level pointing back at
    /// its owner. Ids never repeat: everything assigned here is fresh,
    /// mutually distinct and recorded in the index.
    #[verifier::loop_isolation(false)]
    #[verifier::rlimit(50)]
    pub fn scan_directory_structure(&mut self, entries: Vec<RawEntry>, parent_id: u64) -> (r:
        Vec<FileSystemItem>)
        requires
            old(self).wf(),
            old(self).next_id_spec() + forest_scan_count(entries@) <= u64::MAX,
        ensures
            final(self).wf(),
            final(self).items() == old(self).items(),
            final(self).key_view() == old(self).key_view(),
            old(self).next_id_spec() <= final(self).next_id_spec(),
            final(self).next_id_spec() <= old(self).next_id_spec() + forest_scan_count(entries@),
            r@.len() == entries@.len(),
            forest_sorted(r@),
            item_descs(r@).to_multiset() == entry_descs(entries@).to_multiset(),
            forall|k: int|
                0 <= k < r@.len() ==> (#[trigger] r@[k]).parent_id == Some(parent_id)
                    && item_scanned_ok(r@[k]) && item_paths_registered(*final(self), r@[k]),
            forest_ids_distinct(r@),
            forall|id: u64|
                #[trigger] forest_ids(r@).contains(id) ==> old(self).next_id_spec() <= id
                    && id < final(self).next_id_spec() && final(self).registered(id),
            forall|id: u64|
                #[trigger] old(self).registered(id) ==> final(self).registered(id)
                    && final(self).path_of(id) == old(self).path_of(id),
            forall|id: u64|
                #[trigger] final(self).registered(id) ==> old(self).registered(id) || forest_ids(
                    r@,
                ).contains(id),
        decreases entries,
    {
        let ghost entries0 = entries;
        let ghost eseq = entries@;
        let mut sorted = sort_entries(entries);
        let ghost sseq = sorted@;
        let mut result: Vec<FileSystemItem> = Vec::new();
        proof {
            assert(sorted@ =~= sseq.skip(0));
            assert(item_descs(result@) =~= entry_descs(sseq.take(0)));
        }
        while sorted.len() > 0
            invariant
                self.wf(),
                self.items() == old(self).items(),
                self.key_view() == old(self).key_view(),
                old(self).next_id_spec() <= self.next_id_spec(),
                self.next_id_spec() + forest_scan_count(sorted@) <= old(self).next_id_spec()
                    + forest_scan_count(eseq),
                result@.len() + sorted@.len() == sseq.len(),
                sseq.len() == eseq.len(),
                sorted@ =~= sseq.skip(result@.len() as int),
                item_descs(result@) =~= entry_descs(sseq.take(result@.len() as int)),
                forest_sorted(result@),
                forall|k: int|
                    0 <= k < result@.len() ==> (#[trigger] result@[k]).parent_id == Some(parent_id)
                        && item_scanned_ok(result@[k]) && item_paths_registered(
                        *self,
                        result@[k],
                    ),
                forest_ids_distinct(result@),
                forall|id: u64|
                    #[trigger] forest_ids(result@).contains(id) ==> old(self).next_id_spec() <= id
                        && id < self.next_id_spec() && self.registered(id),
                forall|id: u64|
                    #[trigger] old(self).registered(id) ==> self.registered(id) && self.path_of(id)
                        == old(self).path_of(id),
                forall|id: u64|
                    #[trigger] self.registered(id) ==> old(self).registered(id) || forest_ids(
                        result@,
                    ).contains(id),
            decreases sorted@.len(),
        {
            let ghost pre = *self;
            let ghost sorted_pre = sorted@;
            let ghost res0 = result@;
            let ghost kk = result@.len() as int;
            let e = sorted.remove(0);
            let ghost e0 = e;
            proof {
                assert(e == sorted_pre[0]);
                assert(sorted_pre.drop_first() =~= sorted@);
                assert(forest_scan_count(sorted_pre) == entry_scan_count(e0) + forest_scan_count(
                    sorted@,
                ));
                lemma_entry_scan_count(e0);
            }
            let RawEntry { name, path, is_directory, children } = e;
            let id = self.add_path_mapping(path.clone());
            let ghost s1 = *self;
            let is_note = !is_directory && is_note_file_name(name.as_str());
            let scanned_children: Option<Vec<FileSystemItem>> = if should_scan_children(
                name.as_str(),
                is_directory,
            ) {
                match children {
                    Some(cs) => {
                        proof {
                            // the child listing sits below this entry, which is one
                            // of the entries this call was given
                            assert(sseq.to_multiset().contains(e0)) by {
                                assert(sseq[kk] == e0);
                                assert(sseq.contains(e0));
                            }
                            assert(entries0@.to_multiset().contains(e0));
                            assert(entries0@.contains(e0));
                            let wi = choose|wi: int|
                                0 <= wi < entries0@.len() && entries0@[wi] == e0;
                            assert(decreases_to!(entries0 => entries0@[wi]));
                            assert(decreases_to!(e0 => e0.children));
                            assert(decreases_to!(e0.children => e0.children->Some_0));
                            assert(e0.children->Some_0 == cs);
                            assert(decreases_to!(entries0 => cs));
                        }
                        let scanned = self.scan_directory_structure(cs, id);
                        Some(scanned)
                    },
                    None => None,
                }
            } else {
                None
            };
            let ghost s2 = *self;
            let item = FileSystemItem {
                id,
                parent_id: Some(parent_id),
                name,
                path,
                is_directory,
                is_note,
                children: scanned_children,
            };
            result.push(item);
            proof {
                assert(result@ == res0.push(item));
                assert(result@[kk] == item);
                assert(forall|t: int| 0 <= t < kk ==> result@[t] == res0[t]);
                lemma_scan_new_item(item, pre.next_id_spec(), s2);
                assert forall|id2: u64|
                    pre.registered(id2) implies s2.registered(id2) && s2.path_of(id2)
                    == pre.path_of(id2) by {
                    assert(s1.registered(id2) && s1.path_of(id2) == pre.path_of(id2));
                }
                assert forall|id2: u64|
                    s2.registered(id2) implies pre.registered(id2) || item_ids(item).contains(
                    id2,
                ) by {
                    if !pre.registered(id2) && !item_ids(item).contains(id2) {
                        assert(id2 != item.id);
                        assert(!s1.registered(id2));
                        match item.children {
                            Some(cs2) => {
                                assert(!forest_ids(cs2@).contains(id2));
                                assert(!s2.registered(id2));
                            },
                            None => {
                                assert(s2 == s1);
                            },
                        }
                    }
                }
                lemma_scan_push_sets(res0, item, result@, *old(self), pre, s2);
                // the previously scanned nodes are still registered
                assert forall|t: int| 0 <= t < kk implies item_paths_registered(
                    s2,
                    #[trigger] result@[t],
                ) by {
                    lemma_paths_registered_monotone(pre, s2, result@[t]);
                }
                assert(item_paths_registered(s2, item)) by {
                    assert(s2.registered(item.id) && s2.path_of(item.id) == item.path@);
                }
                assert(item_scanned_ok(item));
                // the prefix of descriptors grows by this entry's
                assert(item_descs(result@) =~= entry_descs(sseq.take(kk + 1))) by {
                    assert(item_desc(item) == entry_desc(sseq[kk]));
                    assert forall|t: int|
                        0 <= t <= kk implies #[trigger] item_descs(result@)[t] == entry_descs(
                        sseq.take(kk + 1),
                    )[t] by {
                        assert(item_descs(result@)[t] == item_desc(result@[t]));
                        assert(entry_descs(sseq.take(kk + 1))[t] == entry_desc(
                            sseq.take(kk + 1)[t],
                        ));
                        assert(sseq.take(kk + 1)[t] == sseq[t]);
                        if t < kk {
                            assert(result@[t] == res0[t]);
                            assert(item_descs(res0)[t] == item_desc(res0[t]));
                            assert(entry_descs(sseq.take(kk))[t] == entry_desc(sseq.take(kk)[t]));
                            assert(sseq.take(kk)[t] == sseq[t]);
                        }
                    }
                }
                // order at this level follows the sorted listing
                assert(forest_sorted(result@)) by {
                    assert forall|a: int, b: int| 0 <= a < b < result@.len() implies scan_le(
                        (#[trigger] result@[a]).name@,
                        result@[a].is_directory,
                        (#[trigger] result@[b]).name@,
                        result@[b].is_directory,
                    ) by {
                        if b == kk {
                            assert(item_descs(result@)[a] == item_desc(result@[a]));
                            assert(entry_descs(sseq.take(kk + 1))[a] == entry_desc(
                                sseq.take(kk + 1)[a],
                            ));
                            assert(sseq.take(kk + 1)[a] == sseq[a]);
                            assert(item_desc(result@[a]) == entry_desc(sseq[a]));
                            assert(item_descs(result@)[b] == item_desc(result@[b]));
                            assert(entry_descs(sseq.take(kk + 1))[b] == entry_desc(
                                sseq.take(kk + 1)[b],
                            ));
                            assert(sseq.take(kk + 1)[b] == sseq[b]);
                            assert(item_desc(result@[b]) == entry_desc(sseq[b]));
                            assert(entry_le(sseq[a], sseq[kk]));
                        }
                    }
                }
                assert(sorted@ =~= sseq.skip(result@.len() as int));
            }
        }
        proof {
            assert(sseq.take(result@.len() as int) =~= sseq);
            assert(item_descs(result@).to_multiset() == entry_descs(eseq).to_multiset());
        }
        result
    }

    /// Everything the tree holds was assigned before the current counter.
    pub proof fn lemma_forest_ids_below_counter(self)
        requires
            self.wf(),
        ensures
            forall|id: u64|
                #[trigger] forest_ids(self.items()).contains(id) ==> id < self.next_id_spec(),
    {
        assert forall|id: u64|
            #[trigger] forest_ids(self.items()).contains(id) implies id < self.next_id_spec() by {
            self.lemma_registered_below_counter(id);
        }
    }

    /// Opens a workspace folder from its scanned listing. Idempotent: a path
    /// that is already open hands back its existing id and changes nothing.
    /// Otherwise the folder gets a fresh id, its listing is scanned into the
    /// tree (every descendant registered under a fresh id), and the new root
    /// is handed back in frontend shape for the caller to announce.
    pub fn open_folder(
        &mut self,
        folder_path: String,
        folder_name: String,
        entries: Vec<RawEntry>,
    ) -> (r: (u64, Option<FileSystemItemFrontend>))
        requires
            old(self).wf(),
            old(self).next_id_spec() + 1 + forest_scan_count(entries@) <= u64::MAX,
        ensures
            final(self).wf(),
            final(self).key_view() == old(self).key_view(),
            Self::first_opened(old(self).items(), folder_path@) matches Some(eid) ==> r.0 == eid
                && r.1 is None && *final(self) == *old(self),
            Self::first_opened(old(self).items(), folder_path@) is None ==> {
                let it = final(self).items().last();
                &&& r.0 == old(self).next_id_spec()
                &&& final(self).items() == old(self).items().push(it)
                &&& it.id == r.0
                &&& it.parent_id is None
                &&& it.name@ == folder_name@
                &&& it.path@ == folder_path@
                &&& it.is_directory
                &&& !it.is_note
                &&& it.children is Some
                &&& forest_sorted((it.children->Some_0)@)
                &&& item_descs((it.children->Some_0)@).to_multiset() == entry_descs(
                    entries@,
                ).to_multiset()
                &&& forall|k: int|
                    0 <= k < (it.children->Some_0)@.len() ==> (#[trigger] (
                    it.children->Some_0)@[k]).parent_id == Some(it.id) && item_scanned_ok(
                        (it.children->Some_0)@[k],
                    )
                &&& item_paths_registered(*final(self), it)
                &&& final(self).registered(r.0)
                &&& final(self).path_of(r.0) == folder_path@
                &&& forall|id: u64|
                    #[trigger] old(self).registered(id) ==> final(self).registered(id)
                        && final(self).path_of(id) == old(self).path_of(id)
                &&& r.1 matches Some(fe) && frontend_matches(it, fe)
            },
    {
        match self.is_opened(folder_path.as_str()) {
            Some(eid) => (eid, None),
            None => {
                let ghost pre = *old(self);
                let folder_id = self.add_path_mapping(folder_path.clone());
                let ghost s1 = *self;
                let children = self.scan_directory_structure(entries, folder_id);
                let ghost s2 = *self;
                let item = FileSystemItem {
                    id: folder_id,
                    parent_id: None,
                    name: folder_name,
                    path: folder_path,
                    is_directory: true,
                    is_note: false,
                    children: Some(children),
                };
                let fe = self.to_frontend_item(&item);
                proof {
                    lemma_scan_new_item(item, folder_id, s2);
                    pre.lemma_forest_ids_below_counter();
                    assert forall|id: u64|
                        item_ids(item).contains(id) implies !forest_ids(
                        old(self).items(),
                    ).contains(id) by {}
                    Self::lemma_first_opened_none(self.items(), item.path@);
                }
                let added = self.add_opened_item(item);
                proof {
                    assert(added);
                    assert(self.items() == old(self).items().push(item));
                    assert(self.items().last() == item);
                    assert forall|k: int|
                        0 <= k < (item.children->Some_0)@.len() implies item_paths_registered(
                        *self,
                        #[trigger] (item.children->Some_0)@[k],
                    ) by {
                        lemma_paths_registered_monotone(s2, *self, (item.children->Some_0)@[k]);
                    }
                    assert(item_paths_registered(*self, item));
                }
                (folder_id, Some(fe))
            },
        }
    }

    /// Opens a dropped note file. Idempotent: a path that is already open
    /// hands back its existing id and changes nothing. Otherwise the note
    /// gets a fresh id registered under its path and joins the tree as a
    /// root, and the new item is handed back in frontend shape.
    pub fn open_dropped_note(&mut self, file_path: String) -> (r: (
        u64,
        Option<FileSystemItemFrontend>,
    ))
        requires
            old(self).wf(),
            old(self).next_id_spec() < u64::MAX,
        ensures
            final(self).wf(),
            final(self).key_view() == old(self).key_view(),
            Self::first_opened(old(self).items(), file_path@) matches Some(eid) ==> r.0 == eid
                && r.1 is None && *final(self) == *old(self),
            Self::first_opened(old(self).items(), file_path@) is None ==> {
                let it = final(self).items().last();
                &&& r.0 == old(self).next_id_spec()
                &&& final(self).items() == old(self).items().push(it)
                &&& it.id == r.0
                &&& it.parent_id is None
                &&& it.name@ == crate::paths::file_name_of(file_path@)
                &&& it.path@ == file_path@
                &&& !it.is_directory
                &&& it.is_note
                &&& it.children is None
                &&& final(self).registered(r.0)
                &&& final(self).path_of(r.0) == file_path@
                &&& forall|id: u64|
                    #[trigger] old(self).registered(id) ==> final(self).registered(id)
                        && final(self).path_of(id) == old(self).path_of(id)
                &&& r.1 matches Some(fe) && frontend_matches(it, fe)
            },
    {
        match self.is_opened(file_path.as_str()) {
            Some(eid) => (eid, None),
            None => {
                let ghost pre = *old(self);
                let display_name = String::from_str(crate::paths::file_name(file_path.as_str()));
                let id = self.add_path_mapping(file_path.clone());
                let item = FileSystemItem {
                    id,
                    parent_id: None,
                    name: display_name,
                    path: file_path,
                    is_directory: false,
                    is_note: true,
                    children: None,
                };
                let fe = self.to_frontend_item(&item);
                proof {
                    assert(item_ids(item) =~= set![item.id]);
                    pre.lemma_forest_ids_below_counter();
                    Self::lemma_first_opened_none(self.items(), item.path@);
                }
                let added = self.add_opened_item(item);
                proof {
                    assert(added);
                    assert(self.items() == old(self).items().push(item));
                }
                (id, Some(fe))
            },
        }
    }

    /// Finds the node with the given id and parent anywhere in a forest.
    /// (The borrow handed back is shared: callers that mutate go through
    /// `update_note_path` instead.)
    pub fn find_item_mut<'a>(
        items: &'a Vec<FileSystemItem>,
        id: u64,
        parent_id: Option<u64>,
    ) -> (r: Option<&'a FileSystemItem>)
        ensures
            r matches Some(it) ==> it.id == id && it.parent_id == parent_id,
            r is Some <==> exists|i: int|
                0 <= i < items@.len() && item_has_node(#[trigger] items@[i], id, parent_id),
    {
        let n = items.len();
        let mut i: usize = 0;
        while i < n
            invariant
                i <= n,
                n == items@.len(),
                forall|j: int|
                    0 <= j < i ==> !item_has_node(#[trigger] items@[j], id, parent_id),
            decreases n - i,
        {
            if let Some(found) = Self::find_in_item(&items[i], id, parent_id) {
                return Some(found);
            }
            i += 1;
        }
        None
    }

    /// Finds the node with the given id and parent within one subtree.
    fn find_in_item<'a>(
        item: &'a FileSystemItem,
        id: u64,
        parent_id: Option<u64>,
    ) -> (r: Option<&'a FileSystemItem>)
        ensures
            r matches Some(it) ==> it.id == id && it.parent_id == parent_id,
            r is Some <==> item_has_node(*item, id, parent_id),
        decreases *item,
    {
        if item.id == id && opt_id_eq(item.parent_id, parent_id) {
            return Some(item);
        }
        match &item.children {
            Some(cs) => {
                let n = cs.len();
                let mut i: usize = 0;
                while i < n
                    invariant
                        i <= n,
                        n == cs@.len(),
                        item.children == Some(*cs),
                        forall|j: int|
                            0 <= j < i ==> !item_has_node(#[trigger] cs@[j], id, parent_id),
                    decreases n - i,
                {
                    proof {
                        assert(decreases_to!(*item => item.children));
                        assert(decreases_to!(item.children => item.children->Some_0));
                        assert(item.children->Some_0 == *cs);
                        assert(decreases_to!(*cs => cs@[i as int]));
                    }
                    if let Some(found) = Self::find_in_item(&cs[i], id, parent_id) {
                        return Some(found);
                    }
                    i += 1;
                }
                None
            },
            None => None,
        }
    }

    /// Finds a node of the workspace tree by id and parent.
    pub fn get_item_from_id(&self, id: u64, parent_id: Option<u64>) -> (r: Option<
        &FileSystemItem,
    >)
        ensures
            r matches Some(it) ==> it.id == id && it.parent_id == parent_id,
            r is Some <==> exists|i: int|
                0 <= i < self.items().len() && item_has_node(
                    #[trigger] self.items()[i],
                    id,
                    parent_id,
                ),
    {
        let r = Self::find_item_mut(&self.opened_items, id, parent_id);
        proof {
            assert(self.items() == self.opened_items@);
            if exists|i: int|
                0 <= i < self.items().len() && item_has_node(
                    #[trigger] self.items()[i],
                    id,
                    parent_id,
                ) {
                let i = choose|i: int|
                    0 <= i < self.items().len() && item_has_node(
                        #[trigger] self.items()[i],
                        id,
                        parent_id,
                    );
                assert(item_has_node(self.opened_items@[i], id, parent_id));
            }
            if exists|i: int|
                0 <= i < self.opened_items@.len() && item_has_node(
                    #[trigger] self.opened_items@[i],
                    id,
                    parent_id,
                ) {
                let i = choose|i: int|
                    0 <= i < self.opened_items@.len() && item_has_node(
                        #[trigger] self.opened_items@[i],
                        id,
                        parent_id,
                    );
                assert(item_has_node(self.items()[i], id, parent_id));
            }
        }
        r
    }

    /// Converts one item to the shape the presentation layer receives.
    pub fn to_frontend_item(&self, item: &FileSystemItem) -> (r: FileSystemItemFrontend)
        ensures
            frontend_matches(*item, r),
        decreases *item,
    {
        let children: Option<Vec<FileSystemItemFrontend>> = match &item.children {
            Some(cs) => {
                let n = cs.len();
                let mut out: Vec<FileSystemItemFrontend> = Vec::new();
                let mut i: usize = 0;
                while i < n
                    invariant
                        i <= n,
                        n == cs@.len(),
                        item.children == Some(*cs),
                        out@.len() == i,
                        forall|k: int|
                            0 <= k < i ==> frontend_matches(#[trigger] cs@[k], out@[k]),
                    decreases n - i,
                {
                    proof {
                        assert(decreases_to!(*item => item.children));
                        assert(decreases_to!(item.children => item.children->Some_0));
                        assert(item.children->Some_0 == *cs);
                        assert(decreases_to!(*cs => cs@[i as int]));
                    }
                    let fe = self.to_frontend_item(&cs[i]);
                    out.push(fe);
                    i += 1;
                }
                Some(out)
            },
            None => None,
        };
        FileSystemItemFrontend {
            id: item.id,
            parent_id: item.parent_id,
            name: item.name.clone(),
            is_directory: item.is_directory,
            is_note: item.is_note,
            children,
            collapsed: true,
        }
    }

    /// A snapshot of the opened tree for the presentation layer.
    pub fn get_opened_items(&self) -> (r: Vec<FileSystemItemFrontend>)
        ensures
            r@.len() == self.items().len(),
            forall|i: int|
                0 <= i < self.items().len() ==> frontend_matches(
                    #[trigger] self.items()[i],
                    r@[i],
                ),
    {
        let n = self.opened_items.len();
        let mut out: Vec<FileSystemItemFrontend> = Vec::new();
        let mut i: usize = 0;
        while i < n
            invariant
                i <= n,
                n == self.items().len(),
                out@.len() == i,
                forall|k: int|
                    0 <= k < i ==> frontend_matches(#[trigger] self.items()[k], out@[k]),
            decreases n - i,
        {
            let fe = self.to_frontend_item(&self.opened_items[i]);
            out.push(fe);
            i += 1;
        }
        out
    }
}

impl Default for AppState {
    /// A fresh, locked, empty session.
    fn default() -> (s: Self)
        ensures
            s.wf(),
            s.key_view() is None,
            s.items() == Seq::<FileSystemItem>::empty(),
            forall|id: u64| !s.registered(id),
            s.next_id_spec() == 0,
    {
        AppState { key: None, opened_items: Vec::new(), id_to_path_map: Vec::new(), next_id: 0 }
    }
}

/// Whether two optional ids are the same.
fn opt_id_eq(a: Option<u64>, b: Option<u64>) -> (r: bool)
    ensures
        r == (a == b),
{
    match (a, b) {
        (None, None) => true,
        (Some(x), Some(y)) => x == y,
        _ => false,
    }
}

/// Rebuilds one subtree with path and name replaced on the node whose id and
/// parent match, leaving every other node untouched.
fn rename_item_exec(
    item: &FileSystemItem,
    id: u64,
    parent_id: Option<u64>,
    new_path: &String,
    new_name: &String,
) -> (r: FileSystemItem)
    ensures
        renamed_item(*item, r, id, parent_id, new_path@, new_name@),
    decreases *item,
{
    let hit = item.id == id && opt_id_eq(item.parent_id, parent_id);
    let children: Option<Vec<FileSystemItem>> = match &item.children {
        Some(cs) => {
            let n = cs.len();
            let mut out: Vec<FileSystemItem> = Vec::new();
            let mut j: usize = 0;
            while j < n
                invariant
                    j <= n,
                    n == cs@.len(),
                    item.children == Some(*cs),
                    out@.len() == j,
                    forall|k: int|
                        0 <= k < j ==> renamed_item(
                            #[trigger] cs@[k],
                            out@[k],
                            id,
                            parent_id,
                            new_path@,
                            new_name@,
                        ),
                decreases n - j,
            {
                proof {
                    assert(decreases_to!(*item => item.children));
                    assert(decreases_to!(item.children => item.children->Some_0));
                    assert(item.children->Some_0 == *cs);
                    assert(decreases_to!(*cs => cs@[j as int]));
                }
                out.push(rename_item_exec(&cs[j], id, parent_id, new_path, new_name));
                j += 1;
            }
            Some(out)
        },
        None => None,
    };
    FileSystemItem {
        id: item.id,
        parent_id: item.parent_id,
        name: if hit {
            new_name.clone()
        } else {
            item.name.clone()
        },
        path: if hit {
            new_path.clone()
        } else {
            item.path.clone()
        },
        is_directory: item.is_directory,
        is_note: item.is_note,
        children,
    }
}

/// The scan order, decided on two raw entries.
fn entry_le_exec(a: &RawEntry, b: &RawEntry) -> (r: bool)
    ensures
        r == entry_le(*a, *b),
{
    if a.is_directory != b.is_directory {
        a.is_directory
    } else {
        str_lex_le(a.name.as_str(), b.name.as_str())
    }
}

/// Where a new entry belongs in an ordered listing.
fn insert_pos(out: &Vec<RawEntry>, e: &RawEntry) -> (k: usize)
    requires
        entries_sorted(out@),
    ensures
        k <= out@.len(),
        forall|j: int| 0 <= j < k ==> entry_le(#[trigger] out@[j], *e),
        k < out@.len() ==> !entry_le(out@[k as int], *e),
{
    let n = out.len();
    let mut k: usize = 0;
    while k < n
        invariant
            k <= n,
            n == out@.len(),
            forall|j: int| 0 <= j < k ==> entry_le(#[trigger] out@[j], *e),
        decreases n - k,
    {
        if !entry_le_exec(&out[k], e) {
            return k;
        }
        k += 1;
    }
    k
}

/// Orders a listing as a scan presents it: directories before files, names
/// ascending within each class; nothing is added, dropped or changed.
fn sort_entries(entries: Vec<RawEntry>) -> (r: Vec<RawEntry>)
    ensures
        entries_sorted(r@),
        r@.len() == entries@.len(),
        r@.to_multiset() == entries@.to_multiset(),
        entry_descs(r@).to_multiset() == entry_descs(entries@).to_multiset(),
        forest_scan_count(r@) == forest_scan_count(entries@),
{
    let ghost all = entries@;
    let mut rest = entries;
    let mut out: Vec<RawEntry> = Vec::new();
    while rest.len() > 0
        invariant
            entries_sorted(out@),
            out@.len() + rest@.len() == all.len(),
            out@.to_multiset().add(rest@.to_multiset()) == all.to_multiset(),
            entry_descs(out@).to_multiset().add(entry_descs(rest@).to_multiset()) == entry_descs(
                all,
            ).to_multiset(),
            forest_scan_count(out@) + forest_scan_count(rest@) == forest_scan_count(all),
        decreases rest@.len(),
    {
        let ghost rest0 = rest@;
        let ghost out0 = out@;
        let e = rest.pop().unwrap();
        let k = insert_pos(&out, &e);
        out.insert(k, e);
        proof {
            // the popped entry moves from one multiset to the other
            assert(rest0 =~= rest@.push(e));
            assert(out@ == out0.insert(k as int, e));
            assert(entry_descs(rest0) =~= entry_descs(rest@).push(entry_desc(e)));
            assert(entry_descs(out@) =~= entry_descs(out0).insert(k as int, entry_desc(e))) by {
                out0.insert_ensures(k as int, e);
                entry_descs(out0).insert_ensures(k as int, entry_desc(e));
            }
            assert(out@.to_multiset().add(rest@.to_multiset()) == all.to_multiset()) by {
                assert(out@.to_multiset() == out0.to_multiset().insert(e));
                assert(rest0.to_multiset() == rest@.to_multiset().insert(e));
                assert(out0.to_multiset().insert(e).add(rest@.to_multiset()) =~= out0.to_multiset()
                    .add(rest@.to_multiset().insert(e)));
            }
            assert(entry_descs(out@).to_multiset().add(entry_descs(rest@).to_multiset())
                == entry_descs(all).to_multiset()) by {
                assert(entry_descs(out@).to_multiset() == entry_descs(out0).to_multiset().insert(
                    entry_desc(e),
                ));
                assert(entry_descs(rest0).to_multiset() == entry_descs(rest@).to_multiset().insert(
                    entry_desc(e),
                ));
                assert(entry_descs(out0).to_multiset().insert(entry_desc(e)).add(
                    entry_descs(rest@).to_multiset(),
                ) =~= entry_descs(out0).to_multiset().add(
                    entry_descs(rest@).to_multiset().insert(entry_desc(e)),
                ));
            }
            assert(forest_scan_count(out@) + forest_scan_count(rest@) == forest_scan_count(
                all,
            )) by {
                assert(rest0 =~= rest@ + seq![e]);
                lemma_forest_scan_count_concat(rest@, seq![e]);
                assert(seq![e].drop_first() =~= Seq::<RawEntry>::empty());
                assert(seq![e][0] == e);
                assert(forest_scan_count(Seq::<RawEntry>::empty()) == 0);
                assert(forest_scan_count(seq![e]) == entry_scan_count(e) + forest_scan_count(
                    seq![e].drop_first(),
                ));
                assert(out@ =~= out0.subrange(0, k as int) + (seq![e] + out0.subrange(
                    k as int,
                    out0.len() as int,
                )));
                lemma_forest_scan_count_concat(
                    out0.subrange(0, k as int),
                    seq![e] + out0.subrange(k as int, out0.len() as int),
                );
                lemma_forest_scan_count_concat(
                    seq![e],
                    out0.subrange(k as int, out0.len() as int),
                );
                assert(out0 =~= out0.subrange(0, k as int) + out0.subrange(
                    k as int,
                    out0.len() as int,
                ));
                lemma_forest_scan_count_concat(
                    out0.subrange(0, k as int),
                    out0.subrange(k as int, out0.len() as int),
                );
            }
            // the insertion point keeps the listing ordered
            assert(entries_sorted(out@)) by {
                out0.insert_ensures(k as int, e);
                assert forall|i: int, j: int|
                    0 <= i < j < out@.len() implies entry_le(
                    #[trigger] out@[i],
                    #[trigger] out@[j],
                ) by {
                    if i < k && j == k {
                    } else if i == k && j > k {
                        assert(out@[j] == out0[j - 1]);
                        assert(!entry_le(out0[k as int], e));
                        lemma_scan_le_total(
                            e.name@,
                            e.is_directory,
                            out0[k as int].name@,
                            out0[k as int].is_directory,
                        );
                        if j - 1 > k {
                            lemma_scan_le_trans(
                                e.name@,
                                e.is_directory,
                                out0[k as int].name@,
                                out0[k as int].is_directory,
                                out0[j - 1].name@,
                                out0[j - 1].is_directory,
                            );
                        }
                    } else if i < k && j > k {
                        assert(out@[i] == out0[i] && out@[j] == out0[j - 1]);
                        if i == j - 1 {
                            assert(entry_le(out0[i], e));
                            assert(!entry_le(out0[k as int], e));
                            lemma_scan_le_total(
                                e.name@,
                                e.is_directory,
                                out0[k as int].name@,
                                out0[k as int].is_directory,
                            );
                            lemma_scan_le_trans(
                                out0[i].name@,
                                out0[i].is_directory,
                                e.name@,
                                e.is_directory,
                                out0[j - 1].name@,
                                out0[j - 1].is_directory,
                            );
                        }
                    } else if i > k && j > k {
                        assert(out@[i] == out0[i - 1] && out@[j] == out0[j - 1]);
                    }
                }
            }
        }
    }
    proof {
        assert(rest@.to_multiset() =~= Multiset::<RawEntry>::empty());
        assert(entry_descs(rest@) =~= Seq::<(Seq<char>, Seq<char>, bool)>::empty());
        assert(entry_descs(rest@).to_multiset() =~= Multiset::<
            (Seq<char>, Seq<char>, bool),
        >::empty());
        assert(out@.to_multiset() =~= all.to_multiset());
        assert(entry_descs(out@).to_multiset() =~= entry_descs(all).to_multiset());
        assert(out@.len() == all.len()) by {
            assert(out@.to_multiset().len() == all.to_multiset().len());
        }
    }
    out
}

/// The ids of a freshly built node: its own fresh id plus its scanned
/// children's, all fresh, mutually distinct and registered.
proof fn lemma_scan_new_item(item: FileSystemItem, lo: u64, s2: AppState)
    requires
        item.id == lo,
        lo < s2.next_id_spec(),
        s2.registered(lo),
        match item.children {
            Some(cs) => forest_ids_distinct(cs@) && (forall|id: u64|
                #[trigger] forest_ids(cs@).contains(id) ==> lo + 1 <= id && id
                    < s2.next_id_spec() && s2.registered(id)),
            None => true,
        },
    ensures
        forall|id: u64|
            #[trigger] item_ids(item).contains(id) ==> lo <= id && id < s2.next_id_spec()
                && s2.registered(id),
        item_ids_distinct(item),
        forall|id: u64|
            #[trigger] item_ids(item).contains(id) <==> (id == item.id || match item.children {
                Some(cs) => forest_ids(cs@).contains(id),
                None => false,
            }),
{
    match item.children {
        Some(cs) => {
            assert forall|id: u64| #[trigger]
                item_ids(item).contains(id) implies (id == item.id || forest_ids(cs@).contains(
                id,
            )) by {}
            assert forall|id: u64|
                (id == item.id || #[trigger] forest_ids(cs@).contains(id)) implies item_ids(
                item,
            ).contains(id) by {}
            assert forall|id: u64|
                #[trigger] item_ids(item).contains(id) implies lo <= id && id < s2.next_id_spec()
                    && s2.registered(id) by {
                if id != item.id {
                    assert(forest_ids(cs@).contains(id));
                }
            }
            assert(item_ids_distinct(item)) by {
                assert forall|i: int|
                    0 <= i < cs@.len() implies !item_ids(#[trigger] cs@[i]).contains(
                    item.id,
                ) by {
                    if item_ids(cs@[i]).contains(item.id) {
                        assert(forest_ids(cs@).contains(item.id));
                    }
                }
            }
        },
        None => {
            assert(item_ids(item) =~= set![item.id]);
        },
    }
}

/// Appending a freshly scanned root keeps the whole batch duplicate-free and
/// keeps the books on which ids the index gained.
proof fn lemma_scan_push_sets(
    res0: Seq<FileSystemItem>,
    item: FileSystemItem,
    result: Seq<FileSystemItem>,
    olds: AppState,
    pre: AppState,
    s2: AppState,
)
    requires
        result == res0.push(item),
        forall|id: u64|
            #[trigger] forest_ids(res0).contains(id) ==> olds.next_id_spec() <= id && id
                < pre.next_id_spec() && pre.registered(id),
        forall|id: u64|
            #[trigger] olds.registered(id) ==> pre.registered(id) && pre.path_of(id)
                == olds.path_of(id),
        forall|id: u64|
            #[trigger] pre.registered(id) ==> olds.registered(id) || forest_ids(res0).contains(
                id,
            ),
        forest_ids_distinct(res0),
        olds.next_id_spec() <= pre.next_id_spec(),
        pre.next_id_spec() <= s2.next_id_spec(),
        forall|id: u64|
            #[trigger] item_ids(item).contains(id) ==> pre.next_id_spec() <= id && id
                < s2.next_id_spec() && s2.registered(id),
        item_ids_distinct(item),
        forall|id: u64|
            #[trigger] pre.registered(id) ==> s2.registered(id) && s2.path_of(id) == pre.path_of(
                id,
            ),
        forall|id: u64|
            #[trigger] s2.registered(id) ==> pre.registered(id) || item_ids(item).contains(id),
    ensures
        forest_ids_distinct(result),
        forall|id: u64|
            #[trigger] forest_ids(result).contains(id) ==> olds.next_id_spec() <= id && id
                < s2.next_id_spec() && s2.registered(id),
        forall|id: u64|
            #[trigger] olds.registered(id) ==> s2.registered(id) && s2.path_of(id)
                == olds.path_of(id),
        forall|id: u64|
            #[trigger] s2.registered(id) ==> olds.registered(id) || forest_ids(result).contains(
                id,
            ),
{
    let kk = res0.len() as int;
    assert(result[kk] == item);
    assert(forall|t: int| 0 <= t < kk ==> result[t] == res0[t]);
    assert forall|id: u64|
        forest_ids(result).contains(id) implies forest_ids(res0).contains(id) || item_ids(
        item,
    ).contains(id) by {
        let t = choose|t: int| 0 <= t < result.len() && item_ids(#[trigger] result[t]).contains(id);
        if t < kk {
            assert(item_ids(res0[t]).contains(id));
        }
    }
    assert forall|id: u64|
        forest_ids(res0).contains(id) || item_ids(item).contains(id) implies forest_ids(
        result,
    ).contains(id) by {
        if forest_ids(res0).contains(id) {
            let t = choose|t: int| 0 <= t < res0.len() && item_ids(#[trigger] res0[t]).contains(id);
            assert(item_ids(result[t]).contains(id));
        } else {
            assert(item_ids(result[kk]).contains(id));
        }
    }
    assert(forest_ids_distinct(result)) by {
        assert forall|i: int, j: int|
            0 <= i < result.len() && 0 <= j < result.len() && i != j implies item_ids(
            #[trigger] result[i],
        ).disjoint(item_ids(#[trigger] result[j])) by {
            if i < kk && j < kk {
                assert(item_ids(res0[i]).disjoint(item_ids(res0[j])));
            } else if i < kk && j == kk {
                assert(result[j] == item);
                assert forall|id: u64|
                    item_ids(result[i]).contains(id) implies !item_ids(result[j]).contains(
                    id,
                ) by {
                    assert(result[i] == res0[i]);
                    assert(item_ids(res0[i]).contains(id));
                    assert(forest_ids(res0).contains(id));
                    assert(id < pre.next_id_spec());
                    if item_ids(item).contains(id) {
                        assert(pre.next_id_spec() <= id);
                    }
                }
            } else if i == kk && j < kk {
                assert(result[i] == item);
                assert forall|id: u64|
                    item_ids(result[i]).contains(id) implies !item_ids(result[j]).contains(
                    id,
                ) by {
                    assert(pre.next_id_spec() <= id);
                    if item_ids(result[j]).contains(id) {
                        assert(result[j] == res0[j]);
                        assert(item_ids(res0[j]).contains(id));
                        assert(forest_ids(res0).contains(id));
                        assert(id < pre.next_id_spec());
                    }
                }
            }
        }
    }
}

/// Every node of a subtree is registered in the state's index under its own
/// path.
pub open spec fn item_paths_registered(s: AppState, item: FileSystemItem) -> bool
    decreases item,
{
    &&& s.registered(item.id)
    &&& s.path_of(item.id) == item.path@
    &&& match item.children {
        Some(cs) => forall|i: int|
            0 <= i < cs@.len() ==> item_paths_registered(s, #[trigger] cs@[i]),
        None => true,
    }
}

/// Registration survives any step that keeps existing index entries.
proof fn lemma_paths_registered_monotone(s1: AppState, s2: AppState, item: FileSystemItem)
    requires
        item_paths_registered(s1, item),
        forall|id: u64|
            s1.registered(id) ==> s2.registered(id) && s2.path_of(id) == s1.path_of(id),
    ensures
        item_paths_registered(s2, item),
    decreases item,
{
    match item.children {
        Some(cs) => {
            assert forall|i: int| 0 <= i < cs@.len() implies item_paths_registered(
                s2,
                #[trigger] cs@[i],
            ) by {
                lemma_paths_registered_monotone(s1, s2, cs@[i]);
            }
        },
        None => {},
    }
}

} // verus!
