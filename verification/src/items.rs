use vstd::prelude::*;
use crate::paths::{is_note_name, is_hidden_name};

verus! {

/// One directory entry as the filesystem walker hands it to the core: a name,
/// the full path, whether it is a directory, and (for a directory that was
/// both worth descending into and readable) its own entries. `None` children
/// on a directory mean the walk did not or could not read it.
pub struct RawEntry {
    pub name: String,
    pub path: String,
    pub is_directory: bool,
    pub children: Option<Vec<RawEntry>>,
}

/// One opened file or folder in the workspace tree. The `id` is assigned at
/// first discovery and never changes; `path` and `name` follow renames.
pub struct FileSystemItem {
    pub id: u64,
    pub parent_id: Option<u64>,
    pub name: String,
    pub path: String,
    pub is_directory: bool,
    pub is_note: bool,
    pub children: Option<Vec<FileSystemItem>>,
}

/// The shape of an item as the presentation layer receives it: the same tree
/// without the filesystem path, plus a collapsed flag for the sidebar.
pub struct FileSystemItemFrontend {
    pub id: u64,
    pub parent_id: Option<u64>,
    pub name: String,
    pub is_directory: bool,
    pub is_note: bool,
    pub children: Option<Vec<FileSystemItemFrontend>>,
    pub collapsed: bool,
}

/// Every id that occurs in the subtree rooted at `item`.
pub open spec fn item_ids(item: FileSystemItem) -> Set<u64>
    decreases item,
{
    match item.children {
        Some(cs) => Set::new(
            |id: u64|
                id == item.id || exists|i: int|
                    0 <= i < cs@.len() && item_ids(#[trigger] cs@[i]).contains(id),
        ),
        None => set![item.id],
    }
}

/// Every id that occurs in a forest of subtrees.
pub open spec fn forest_ids(items: Seq<FileSystemItem>) -> Set<u64> {
    Set::new(
        |id: u64|
            exists|i: int| 0 <= i < items.len() && item_ids(#[trigger] items[i]).contains(id),
    )
}

/// No id occurs twice in the subtree rooted at `item`.
pub open spec fn item_ids_distinct(item: FileSystemItem) -> bool
    decreases item,
{
    match item.children {
        Some(cs) => {
            &&& forall|i: int| 0 <= i < cs@.len() ==> !item_ids(#[trigger] cs@[i]).contains(item.id)
            &&& forall|i: int| 0 <= i < cs@.len() ==> item_ids_distinct(#[trigger] cs@[i])
            &&& forall|i: int, j: int|
                0 <= i < cs@.len() && 0 <= j < cs@.len() && i != j ==> item_ids(
                    #[trigger] cs@[i],
                ).disjoint(item_ids(#[trigger] cs@[j]))
        },
        None => true,
    }
}

/// No id occurs twice in the whole forest: the subtrees are internally
/// duplicate-free and pairwise disjoint.
pub open spec fn forest_ids_distinct(items: Seq<FileSystemItem>) -> bool {
    &&& forall|i: int| 0 <= i < items.len() ==> item_ids_distinct(#[trigger] items[i])
    &&& forall|i: int, j: int|
        0 <= i < items.len() && 0 <= j < items.len() && i != j ==> item_ids(
            #[trigger] items[i],
        ).disjoint(item_ids(#[trigger] items[j]))
}

/// A subtree's own id is always among its ids.
pub broadcast proof fn lemma_item_ids_contains_own(item: FileSystemItem)
    ensures
        #[trigger] item_ids(item).contains(item.id),
{
}

/// Whether the subtree rooted at `item` holds a node with this id and
/// parent.
pub open spec fn item_has_node(item: FileSystemItem, id: u64, parent_id: Option<u64>) -> bool
    decreases item,
{
    ||| (item.id == id && item.parent_id == parent_id)
    ||| match item.children {
        Some(cs) => exists|i: int|
            0 <= i < cs@.len() && item_has_node(#[trigger] cs@[i], id, parent_id),
        None => false,
    }
}

/// A child subtree's ids are among its parent's.
pub proof fn lemma_child_ids_subset(item: FileSystemItem, i: int)
    requires
        item.children is Some,
        0 <= i < (item.children->Some_0)@.len(),
    ensures
        item_ids((item.children->Some_0)@[i]).subset_of(item_ids(item)),
{
}

/// The scan order: directories come before files, and within one class names
/// ascend in case-sensitive lexical order.
pub open spec fn scan_le(
    a_name: Seq<char>,
    a_is_directory: bool,
    b_name: Seq<char>,
    b_is_directory: bool,
) -> bool {
    if a_is_directory != b_is_directory {
        a_is_directory
    } else {
        lex_le(a_name, b_name)
    }
}

/// Case-sensitive lexical order on character sequences, by code point.
pub open spec fn lex_le(a: Seq<char>, b: Seq<char>) -> bool
    decreases a.len(),
{
    if a.len() == 0 {
        true
    } else if b.len() == 0 {
        false
    } else if (a[0] as u32) < (b[0] as u32) {
        true
    } else if (a[0] as u32) > (b[0] as u32) {
        false
    } else {
        lex_le(a.drop_first(), b.drop_first())
    }
}

/// The lexical order is total: any two names are comparable.
pub proof fn lemma_lex_le_total(a: Seq<char>, b: Seq<char>)
    ensures
        lex_le(a, b) || lex_le(b, a),
    decreases a.len(),
{
    if a.len() != 0 && b.len() != 0 && (a[0] as u32) == (b[0] as u32) {
        lemma_lex_le_total(a.drop_first(), b.drop_first());
    }
}

/// The lexical order is transitive.
pub proof fn lemma_lex_le_trans(a: Seq<char>, b: Seq<char>, c: Seq<char>)
    requires
        lex_le(a, b),
        lex_le(b, c),
    ensures
        lex_le(a, c),
    decreases a.len(),
{
    if a.len() != 0 {
        if (a[0] as u32) == (b[0] as u32) && (b[0] as u32) == (c[0] as u32) {
            lemma_lex_le_trans(a.drop_first(), b.drop_first(), c.drop_first());
        }
    }
}

/// The scan order is transitive.
pub proof fn lemma_scan_le_trans(
    a_name: Seq<char>,
    a_dir: bool,
    b_name: Seq<char>,
    b_dir: bool,
    c_name: Seq<char>,
    c_dir: bool,
)
    requires
        scan_le(a_name, a_dir, b_name, b_dir),
        scan_le(b_name, b_dir, c_name, c_dir),
    ensures
        scan_le(a_name, a_dir, c_name, c_dir),
{
    if a_dir == b_dir && b_dir == c_dir {
        lemma_lex_le_trans(a_name, b_name, c_name);
    }
}

/// The scan order is total as well.
pub proof fn lemma_scan_le_total(a_name: Seq<char>, a_dir: bool, b_name: Seq<char>, b_dir: bool)
    ensures
        scan_le(a_name, a_dir, b_name, b_dir) || scan_le(b_name, b_dir, a_name, a_dir),
{
    lemma_lex_le_total(a_name, b_name);
}

/// The scan order lifted to raw entries.
pub open spec fn entry_le(a: RawEntry, b: RawEntry) -> bool {
    scan_le(a.name@, a.is_directory, b.name@, b.is_directory)
}

/// A listing ordered as the scan wants it.
pub open spec fn entries_sorted(es: Seq<RawEntry>) -> bool {
    forall|i: int, j: int| 0 <= i < j < es.len() ==> entry_le(#[trigger] es[i], #[trigger] es[j])
}

/// What identifies a raw entry apart from its children: name, path, class.
pub open spec fn entry_desc(e: RawEntry) -> (Seq<char>, Seq<char>, bool) {
    (e.name@, e.path@, e.is_directory)
}

/// The same descriptor read off a built item.
pub open spec fn item_desc(it: FileSystemItem) -> (Seq<char>, Seq<char>, bool) {
    (it.name@, it.path@, it.is_directory)
}

/// The descriptors of a whole listing, in order.
pub open spec fn entry_descs(es: Seq<RawEntry>) -> Seq<(Seq<char>, Seq<char>, bool)> {
    es.map_values(|e: RawEntry| entry_desc(e))
}

/// The descriptors of a whole forest, in order.
pub open spec fn item_descs(its: Seq<FileSystemItem>) -> Seq<(Seq<char>, Seq<char>, bool)> {
    its.map_values(|it: FileSystemItem| item_desc(it))
}

/// A forest ordered as one level of a scan leaves it.
pub open spec fn forest_sorted(items: Seq<FileSystemItem>) -> bool {
    forall|i: int, j: int|
        0 <= i < j < items.len() ==> scan_le(
            (#[trigger] items[i]).name@,
            items[i].is_directory,
            (#[trigger] items[j]).name@,
            items[j].is_directory,
        )
}

/// What a scan guarantees of every node it builds: the note flag agrees with
/// the name, and the children of every scanned directory point back to it,
/// are ordered, and satisfy the same conditions in turn.
pub open spec fn item_scanned_ok(item: FileSystemItem) -> bool
    decreases item,
{
    &&& item.is_note == (!item.is_directory && is_note_name(item.name@))
    &&& match item.children {
        Some(cs) => {
            &&& forest_sorted(cs@)
            &&& forall|i: int|
                0 <= i < cs@.len() ==> (#[trigger] cs@[i]).parent_id == Some(item.id)
                    && item_scanned_ok(cs@[i])
        },
        None => true,
    }
}

/// How many ids a scan assigns for one raw entry: one for the entry itself,
/// plus one for everything below it when it is a readable directory that the
/// scan descends into.
pub open spec fn entry_scan_count(e: RawEntry) -> nat
    decreases e,
{
    1 + if e.is_directory && !is_hidden_name(e.name@) {
        match e.children {
            Some(cs) => forest_scan_count_rec(e, 0),
            None => 0,
        }
    } else {
        0
    }
}

/// The ids assigned below a directory entry, summed over its children from
/// position `i` on.
pub open spec fn forest_scan_count_rec(e: RawEntry, i: int) -> nat
    decreases e, (e.children->Some_0)@.len() - i,
{
    match e.children {
        Some(cs) => {
            if 0 <= i < cs@.len() {
                entry_scan_count(cs@[i]) + forest_scan_count_rec(e, i + 1)
            } else {
                0
            }
        },
        None => 0,
    }
}

/// How many ids a scan of a whole listing assigns.
pub open spec fn forest_scan_count(es: Seq<RawEntry>) -> nat
    decreases es.len(),
{
    if es.len() == 0 {
        0
    } else {
        entry_scan_count(es[0]) + forest_scan_count(es.drop_first())
    }
}

/// The per-child count sum matches the plain sum over the remaining
/// children.
pub proof fn lemma_forest_scan_count_rec_skip(e: RawEntry, i: int)
    requires
        e.children is Some,
        0 <= i <= (e.children->Some_0)@.len(),
    ensures
        forest_scan_count_rec(e, i) == forest_scan_count((e.children->Some_0)@.skip(i)),
    decreases (e.children->Some_0)@.len() - i,
{
    let cs = (e.children->Some_0)@;
    if i < cs.len() {
        lemma_forest_scan_count_rec_skip(e, i + 1);
        assert(cs.skip(i)[0] == cs[i]);
        assert(cs.skip(i).drop_first() =~= cs.skip(i + 1));
    } else {
        assert(cs.skip(i).len() == 0);
    }
}

/// How one entry's count unfolds: one id for the entry, plus its children's
/// counts exactly when the scan descends into it.
pub proof fn lemma_entry_scan_count(e: RawEntry)
    ensures
        e.is_directory && !is_hidden_name(e.name@) && e.children is Some ==> entry_scan_count(e)
            == 1 + forest_scan_count((e.children->Some_0)@),
        !(e.is_directory && !is_hidden_name(e.name@) && e.children is Some) ==> entry_scan_count(
            e,
        ) == 1,
{
    if e.is_directory && !is_hidden_name(e.name@) && e.children is Some {
        lemma_forest_scan_count_rec_skip(e, 0);
        assert((e.children->Some_0)@.skip(0) =~= (e.children->Some_0)@);
    }
}

/// Counting distributes over concatenation of listings.
pub proof fn lemma_forest_scan_count_concat(a: Seq<RawEntry>, b: Seq<RawEntry>)
    ensures
        forest_scan_count(a + b) == forest_scan_count(a) + forest_scan_count(b),
    decreases a.len(),
{
    if a.len() == 0 {
        assert(a + b =~= b);
    } else {
        assert((a + b)[0] == a[0]);
        assert((a + b).drop_first() =~= a.drop_first() + b);
        lemma_forest_scan_count_concat(a.drop_first(), b);
    }
}

/// The renaming relation: `b` is `a` with path and name replaced on the one
/// node whose id and parent match, and untouched everywhere else.
pub open spec fn renamed_item(
    a: FileSystemItem,
    b: FileSystemItem,
    id: u64,
    parent_id: Option<u64>,
    new_path: Seq<char>,
    new_name: Seq<char>,
) -> bool
    decreases a,
{
    let hit = a.id == id && a.parent_id == parent_id;
    &&& b.id == a.id
    &&& b.parent_id == a.parent_id
    &&& b.is_directory == a.is_directory
    &&& b.is_note == a.is_note
    &&& b.name@ == if hit {
        new_name
    } else {
        a.name@
    }
    &&& b.path@ == if hit {
        new_path
    } else {
        a.path@
    }
    &&& match (a.children, b.children) {
        (Some(ca), Some(cb)) => ca@.len() == cb@.len() && (forall|i: int|
            0 <= i < ca@.len() ==> renamed_item(
                #[trigger] ca@[i],
                cb@[i],
                id,
                parent_id,
                new_path,
                new_name,
            )),
        (None, None) => true,
        _ => false,
    }
}

/// A renamed subtree holds exactly the ids of the original.
pub proof fn lemma_renamed_item_ids(
    a: FileSystemItem,
    b: FileSystemItem,
    id: u64,
    parent_id: Option<u64>,
    new_path: Seq<char>,
    new_name: Seq<char>,
)
    requires
        renamed_item(a, b, id, parent_id, new_path, new_name),
    ensures
        item_ids(b) =~= item_ids(a),
        item_ids_distinct(a) ==> item_ids_distinct(b),
    decreases a,
{
    match (a.children, b.children) {
        (Some(ca), Some(cb)) => {
            assert forall|i: int| 0 <= i < ca@.len() implies item_ids(#[trigger] cb@[i])
                =~= item_ids(ca@[i]) && (item_ids_distinct(ca@[i]) ==> item_ids_distinct(
                cb@[i],
            )) by {
                lemma_renamed_item_ids(ca@[i], cb@[i], id, parent_id, new_path, new_name);
            }
        },
        _ => {},
    }
}

/// The frontend mirror relation: same tree, same flags, no path, collapsed.
pub open spec fn frontend_matches(a: FileSystemItem, b: FileSystemItemFrontend) -> bool
    decreases a,
{
    &&& b.id == a.id
    &&& b.parent_id == a.parent_id
    &&& b.name@ == a.name@
    &&& b.is_directory == a.is_directory
    &&& b.is_note == a.is_note
    &&& b.collapsed == true
    &&& match (a.children, b.children) {
        (Some(ca), Some(cb)) => ca@.len() == cb@.len() && (forall|i: int|
            0 <= i < ca@.len() ==> frontend_matches(#[trigger] ca@[i], cb@[i])),
        (None, None) => true,
        _ => false,
    }
}

} // verus!
