use vstd::prelude::*;
use vstd::relations::sorted_by;

use crate::models::{EntryKind, ListedChild, PathStatus, TreeEntry, TreeError};
use crate::order::{
    insertion_sort, lemma_insert_by_at, lemma_insertion_sort, lemma_name_le_total,
    lemma_name_le_trans, name_le, name_leq, total_preorder,
};
use crate::paths::{file_name_of, lower_of, lowercase, spec_file_name};

verus! {

/// Directories sort before files.
pub open spec fn kind_rank(k: EntryKind) -> int {
    match k {
        EntryKind::Directory => 0,
        EntryKind::File => 1,
    }
}

/// Sibling order: directories first, then by lower-cased name.
pub open spec fn entry_order() -> spec_fn(TreeEntry, TreeEntry) -> bool {
    |a: TreeEntry, b: TreeEntry|
        kind_rank(a.kind) < kind_rank(b.kind) || (kind_rank(a.kind) == kind_rank(b.kind) && name_le(
            lower_of(a.name@),
            lower_of(b.name@),
        ))
}

/// The node reached from `t` by following child indices `p`, if any.
pub open spec fn node_at(t: TreeEntry, p: Seq<int>) -> Option<TreeEntry>
    decreases p.len(),
{
    if p.len() == 0 {
        Some(t)
    } else if 0 <= p[0] < t.children@.len() {
        node_at(t.children@[p[0]], p.drop_first())
    } else {
        None
    }
}

/// A file has no children, and siblings are in `entry_order`.
pub open spec fn node_ok(n: TreeEntry) -> bool {
    &&& (n.kind == EntryKind::File ==> n.children@.len() == 0)
    &&& sorted_by(n.children@, entry_order())
}

/// A tree built with a depth budget of `d`: every node is `node_ok`, and no
/// node `d` or more levels below the root has children, so the tree reaches
/// at most `d` levels down.
pub open spec fn tree_within(t: TreeEntry, d: nat) -> bool {
    forall|p: Seq<int>| #[trigger]
        node_at(t, p) is Some ==> node_ok(node_at(t, p)->Some_0) && (p.len() >= d ==> node_at(
            t,
            p,
        )->Some_0.children@.len() == 0)
}

/// `t` is the node made for listed child `c`.
pub open spec fn made_from(t: TreeEntry, c: ListedChild) -> bool {
    t.path@ == c.path@ && t.name@ == c.name@ && c.kind == Some(t.kind)
}

/// The listing closure reported `path` as unreadable.
pub open spec fn unreadable<F: Fn(&str) -> Option<Vec<ListedChild>>>(list: &F, path: Seq<char>) -> bool {
    exists|p: &str| p@ == path && #[trigger] call_ensures(list, (p,), None)
}

/// `kept` holds, in listing order, one node for each listed child whose kind
/// is known, except that a directory to be expanded further (`d > 0`) is
/// missing where the listing closure reported it unreadable.
pub open spec fn kept_from<F: Fn(&str) -> Option<Vec<ListedChild>>>(
    list: &F,
    kept: Seq<TreeEntry>,
    listed: Seq<ListedChild>,
    d: nat,
) -> bool
    decreases listed.len(),
{
    if listed.len() == 0 {
        kept.len() == 0
    } else {
        let c = listed.last();
        let taken = kept.len() > 0 && made_from(kept.last(), c) && kept_from(
            list,
            kept.drop_last(),
            listed.drop_last(),
            d,
        );
        match c.kind {
            None => kept_from(list, kept, listed.drop_last(), d),
            Some(k) => if k == EntryKind::File || d == 0 {
                taken
            } else {
                taken || (unreadable(list, c.path@) && kept_from(list, kept, listed.drop_last(), d))
            },
        }
    }
}

/// The children of a directory, built with budget `d`, given what its listing
/// returned: the nodes kept from the listing, in sibling order.
pub open spec fn children_from<F: Fn(&str) -> Option<Vec<ListedChild>>>(
    list: &F,
    children: Seq<TreeEntry>,
    listed: Seq<ListedChild>,
    d: nat,
) -> bool {
    exists|kept: Seq<TreeEntry>|
        kept_from(list, kept, listed, d) && children == #[trigger] insertion_sort(
            kept,
            entry_order(),
        )
}

/// Directory node `n`, `level` levels below a root built with budget `d`, has
/// as children what its own listing returned.
pub open spec fn listed_as<F: Fn(&str) -> Option<Vec<ListedChild>>>(
    list: &F,
    n: TreeEntry,
    level: nat,
    d: nat,
) -> bool {
    exists|q: &str, l: Vec<ListedChild>|
        q@ == n.path@ && #[trigger] call_ensures(list, (q,), Some(l)) && children_from(
            list,
            n.children@,
            l@,
            (d - level - 1) as nat,
        )
}

/// Every directory node of `t` above the budget `d` has as children the
/// sorted nodes of its own listing.
pub open spec fn built_from<F: Fn(&str) -> Option<Vec<ListedChild>>>(
    list: &F,
    t: TreeEntry,
    d: nat,
) -> bool {
    forall|p: Seq<int>| #[trigger]
        node_at(t, p) is Some && node_at(t, p)->Some_0.kind == EntryKind::Directory && p.len() < d
            ==> listed_as(list, node_at(t, p)->Some_0, p.len(), d)
}

proof fn lemma_built_from_leaf<F: Fn(&str) -> Option<Vec<ListedChild>>>(
    list: &F,
    t: TreeEntry,
    d: nat,
)
    requires
        t.children@.len() == 0,
        t.kind == EntryKind::File || d == 0,
    ensures
        built_from(list, t, d),
{
    assert forall|p: Seq<int>| #[trigger]
        node_at(t, p) is Some && node_at(t, p)->Some_0.kind == EntryKind::Directory && p.len() < d
            implies listed_as(list, node_at(t, p)->Some_0, p.len(), d) by {
        if p.len() > 0 {
            assert(node_at(t, p) is None);
        }
    }
}

proof fn lemma_built_from_node<F: Fn(&str) -> Option<Vec<ListedChild>>>(
    list: &F,
    t: TreeEntry,
    d: nat,
)
    requires
        d > 0,
        listed_as(list, t, 0, d),
        forall|i: int|
            0 <= i < t.children@.len() ==> #[trigger] built_from(list, t.children@[i], (d - 1) as nat),
    ensures
        built_from(list, t, d),
{
    assert forall|p: Seq<int>| #[trigger]
        node_at(t, p) is Some && node_at(t, p)->Some_0.kind == EntryKind::Directory && p.len() < d
            implies listed_as(list, node_at(t, p)->Some_0, p.len(), d) by {
        if p.len() > 0 {
            let c = t.children@[p[0]];
            let q = p.drop_first();
            assert(built_from(list, c, (d - 1) as nat));
            assert(node_at(t, p) == node_at(c, q));
            assert(listed_as(list, node_at(c, q)->Some_0, q.len(), (d - 1) as nat));
            assert((d - 1) as nat - q.len() - 1 == d - p.len() - 1);
        }
    }
}

proof fn lemma_tree_within_leaf(t: TreeEntry, d: nat)
    requires
        t.children@.len() == 0,
        t.kind == EntryKind::File || d == 0,
    ensures
        tree_within(t, d),
{
    assert forall|p: Seq<int>| #[trigger]
        node_at(t, p) is Some implies node_ok(node_at(t, p)->Some_0) && (p.len() >= d ==> node_at(
            t,
            p,
        )->Some_0.children@.len() == 0) by {
        if p.len() > 0 {
            assert(node_at(t, p) is None);
        }
    }
}

proof fn lemma_tree_within_node(t: TreeEntry, d: nat)
    requires
        d > 0,
        node_ok(t),
        forall|i: int|
            0 <= i < t.children@.len() ==> #[trigger] tree_within(t.children@[i], (d - 1) as nat),
    ensures
        tree_within(t, d),
{
    assert forall|p: Seq<int>| #[trigger]
        node_at(t, p) is Some implies node_ok(node_at(t, p)->Some_0) && (p.len() >= d ==> node_at(
            t,
            p,
        )->Some_0.children@.len() == 0) by {
        if p.len() > 0 {
            let c = t.children@[p[0]];
            assert(tree_within(c, (d - 1) as nat));
            assert(node_at(t, p) == node_at(c, p.drop_first()));
        }
    }
}

/// Sibling order is a total preorder.
pub proof fn lemma_entry_order_total_preorder()
    ensures
        total_preorder(entry_order()),
{
    assert forall|a: TreeEntry, b: TreeEntry| #[trigger]
        entry_order()(a, b) || entry_order()(b, a) by {
        lemma_name_le_total(lower_of(a.name@), lower_of(b.name@));
    }
    assert forall|a: TreeEntry, b: TreeEntry, c: TreeEntry| #[trigger]
        entry_order()(a, b) && #[trigger] entry_order()(b, c) implies entry_order()(a, c) by {
        if kind_rank(a.kind) == kind_rank(b.kind) && kind_rank(b.kind) == kind_rank(c.kind) {
            lemma_name_le_trans(lower_of(a.name@), lower_of(b.name@), lower_of(c.name@));
        }
    }
}

/// Whether `a` may precede `b` among siblings.
fn entry_precedes(a: &TreeEntry, b: &TreeEntry) -> (r: bool)
    ensures
        r == entry_order()(*a, *b),
{
    match (a.kind, b.kind) {
        (EntryKind::Directory, EntryKind::File) => true,
        (EntryKind::File, EntryKind::Directory) => false,
        _ => {
            let x = lowercase(a.name.as_str());
            let y = lowercase(b.name.as_str());
            name_leq(x.as_str(), y.as_str())
        },
    }
}

/// Sorts sibling entries: directories first, then by lower-cased name; ties
/// keep their order.
pub fn sort_entries(entries: Vec<TreeEntry>) -> (r: Vec<TreeEntry>)
    ensures
        r@ == insertion_sort(entries@, entry_order()),
        sorted_by(r@, entry_order()),
        r@.to_multiset() == entries@.to_multiset(),
{
    let ghost all = entries@;
    let total = entries.len();
    let mut rest = entries;
    let mut out: Vec<TreeEntry> = Vec::new();
    let mut k: usize = 0;
    assert(all.skip(0) =~= all);
    while rest.len() > 0
        invariant
            0 <= k <= all.len(),
            rest@ == all.skip(k as int),
            all.len() == rest@.len() + k,
            all.len() == total,
            out@ == insertion_sort(all.take(k as int), entry_order()),
        decreases rest.len(),
    {
        let node = rest.remove(0);
        let ghost before = out@;
        let mut p: usize = 0;
        while p < out.len() && entry_precedes(&out[p], &node)
            invariant
                0 <= p <= out.len(),
                before == out@,
                forall|j: int| 0 <= j < p ==> #[trigger] entry_order()(before[j], node),
            decreases out.len() - p,
        {
            p = p + 1;
        }
        proof {
            lemma_insert_by_at(before, node, entry_order(), p as int);
            assert(all.take(k + 1).drop_last() =~= all.take(k as int));
            assert(all[k as int] == node);
            assert(all.skip(k + 1) =~= all.skip(k as int).drop_first());
        }
        out.insert(p, node);
        k = k + 1;
    }
    assert(all.take(k as int) =~= all);
    proof {
        lemma_entry_order_total_preorder();
        lemma_insertion_sort(all, entry_order());
    }
    out
}

/// Builds the node for `path`, expanding directories while budget remains.
/// `None` where a directory that should be expanded cannot be listed.
fn build_node<F: Fn(&str) -> Option<Vec<ListedChild>>>(
    path: String,
    name: String,
    kind: EntryKind,
    depth: usize,
    list: &F,
) -> (r: Option<TreeEntry>)
    requires
        forall|p: &str| list.requires((p,)),
    ensures
        r matches Some(t) ==> t.path@ == path@ && t.name@ == name@ && t.kind == kind && tree_within(
            t,
            depth as nat,
        ),
        (kind == EntryKind::File || depth == 0) ==> r is Some,
        (kind == EntryKind::File || depth == 0) ==> (r matches Some(t) && t.children@.len() == 0),
        r is None ==> exists|p: &str| p@ == path@ && #[trigger] call_ensures(list, (p,), None),
        r matches Some(t) ==> built_from(list, t, depth as nat),
    decreases depth,
{
    if kind == EntryKind::File || depth == 0 {
        let t = TreeEntry { path, name, kind, children: Vec::new() };
        proof {
            lemma_tree_within_leaf(t, depth as nat);
            lemma_built_from_leaf(list, t, depth as nat);
        }
        return Some(t);
    }
    let dir = path.as_str();
    let res = list(dir);
    let ghost gdir = dir;
    let listed = match res {
        Some(v) => v,
        None => return None,
    };
    proof {
        lemma_entry_order_total_preorder();
    }
    let mut built: Vec<TreeEntry> = Vec::new();
    let mut i: usize = 0;
    while i < listed.len()
        invariant
            0 <= i <= listed.len(),
            depth >= 1,
            forall|p: &str| list.requires((p,)),
            forall|k: int| 0 <= k < built@.len() ==> #[trigger] tree_within(built@[k], (depth - 1) as nat),
            forall|k: int|
                0 <= k < built@.len() ==> #[trigger] built_from(list, built@[k], (depth - 1) as nat),
            kept_from(list, built@, listed@.take(i as int), (depth - 1) as nat),
        decreases listed.len() - i,
    {
        let child = &listed[i];
        proof {
            assert(listed@.take(i + 1).drop_last() =~= listed@.take(i as int));
            assert(listed@.take(i + 1).last() == listed@[i as int]);
        }
        if let Some(child_kind) = child.kind {
            if let Some(node) = build_node(
                child.path.clone(),
                child.name.clone(),
                child_kind,
                depth - 1,
                list,
            ) {
                let ghost before = built@;
                built.push(node);
                proof {
                    assert(built@.drop_last() =~= before);
                }
            }
        }
        i = i + 1;
    }
    assert(listed@.take(i as int) =~= listed@);
    let ghost unsorted = built@;
    let children = sort_entries(built);
    proof {
        broadcast use vstd::seq_lib::group_to_multiset_ensures;

        lemma_insertion_sort(unsorted, entry_order());
        assert forall|k: int| 0 <= k < children@.len() implies #[trigger] tree_within(
            children@[k],
            (depth - 1) as nat,
        ) by {
            assert(children@.to_multiset().count(children@[k]) > 0);
            assert(unsorted.contains(children@[k]));
        }
        assert forall|k: int| 0 <= k < children@.len() implies #[trigger] built_from(
            list,
            children@[k],
            (depth - 1) as nat,
        ) by {
            assert(children@.to_multiset().count(children@[k]) > 0);
            assert(unsorted.contains(children@[k]));
        }
    }
    let t = TreeEntry { path, name, kind, children };
    assert(children_from(list, t.children@, listed@, (depth - 1) as nat)) by {
        assert(kept_from(list, unsorted, listed@, (depth - 1) as nat));
        assert(t.children@ == insertion_sort(unsorted, entry_order()));
    }
    assert(gdir@ == t.path@ && call_ensures(list, (gdir,), Some(listed)));
    assert(listed_as(list, t, 0, depth as nat));
    assert(sorted_by(t.children@, entry_order()));
    assert(forall|k: int| 0 <= k < t.children@.len() ==> #[trigger] tree_within(t.children@[k], (depth - 1) as nat));
    assert(forall|k: int| 0 <= k < t.children@.len() ==> #[trigger] built_from(list, t.children@[k], (depth - 1) as nat));
    proof {
        lemma_tree_within_node(t, depth as nat);
        lemma_built_from_node(list, t, depth as nat);
    }
    Some(t)
}

/// The name of a root node: its file name, or the whole path where it has
/// none (`/`, `..`).
pub open spec fn root_name(p: Seq<char>) -> Seq<char> {
    match spec_file_name(p) {
        Some(n) => n,
        None => p,
    }
}

/// The kind of node that a root of the given status becomes.
pub open spec fn root_kind(status: PathStatus) -> EntryKind {
    if status == PathStatus::Directory {
        EntryKind::Directory
    } else {
        EntryKind::File
    }
}

/// Builds the snapshot of `root`, expanding directories down to `max_depth`
/// levels. `status` says whether the root exists and is a directory; `list`
/// reads one directory, or gives `None` where it cannot. A child that cannot
/// be read is left out; only the root's own listing failing is an error.
pub fn build_tree<F: Fn(&str) -> Option<Vec<ListedChild>>>(
    root: &str,
    status: PathStatus,
    max_depth: usize,
    list: &F,
) -> (r: Result<TreeEntry, TreeError>)
    requires
        forall|p: &str| list.requires((p,)),
    ensures
        (r == Err::<TreeEntry, TreeError>(TreeError::NotFound)) <==> status == PathStatus::Missing,
        r matches Err(e) ==> e == TreeError::NotFound || (e == TreeError::IoError && status
            == PathStatus::Directory && max_depth > 0),
        r matches Ok(t) ==> t.path@ == root@ && t.name@ == root_name(root@) && t.kind
            == root_kind(status) && tree_within(t, max_depth as nat),
        status == PathStatus::NotDirectory || (status == PathStatus::Directory && max_depth == 0)
            ==> (r matches Ok(t) && t.children@.len() == 0),
        r == Err::<TreeEntry, TreeError>(TreeError::IoError) ==> exists|p: &str|
            p@ == root@ && #[trigger] call_ensures(list, (p,), None),
        r matches Ok(t) ==> built_from(list, t, max_depth as nat),
{
    let kind = match status {
        PathStatus::Missing => return Err(TreeError::NotFound),
        PathStatus::Directory => EntryKind::Directory,
        PathStatus::NotDirectory => EntryKind::File,
    };
    let name = match file_name_of(root) {
        Some(n) => n.to_owned(),
        None => root.to_owned(),
    };
    match build_node(root.to_owned(), name, kind, max_depth, list) {
        Some(t) => Ok(t),
        None => Err(TreeError::IoError),
    }
}

/// The caller-facing form of `build_tree`: a root that exists but is not a
/// directory is refused with `InvalidArgument`.
pub fn build_directory_tree<F: Fn(&str) -> Option<Vec<ListedChild>>>(
    root: &str,
    status: PathStatus,
    max_depth: usize,
    list: &F,
) -> (r: Result<TreeEntry, TreeError>)
    requires
        forall|p: &str| list.requires((p,)),
    ensures
        (r == Err::<TreeEntry, TreeError>(TreeError::NotFound)) <==> status == PathStatus::Missing,
        (r == Err::<TreeEntry, TreeError>(TreeError::InvalidArgument)) <==> status
            == PathStatus::NotDirectory,
        r == Err::<TreeEntry, TreeError>(TreeError::IoError) ==> status == PathStatus::Directory
            && max_depth > 0,
        r matches Ok(t) ==> t.path@ == root@ && t.name@ == root_name(root@) && t.kind
            == EntryKind::Directory && tree_within(t, max_depth as nat),
        status == PathStatus::Directory && max_depth == 0 ==> (r matches Ok(t) && t.children@.len()
            == 0),
        r == Err::<TreeEntry, TreeError>(TreeError::IoError) ==> exists|p: &str|
            p@ == root@ && #[trigger] call_ensures(list, (p,), None),
        r matches Ok(t) ==> built_from(list, t, max_depth as nat),
{
    if status == PathStatus::NotDirectory {
        return Err(TreeError::InvalidArgument);
    }
    build_tree(root, status, max_depth, list)
}

/// A tree built with budget `d` reaches at most `d` levels below its root,
/// and the nodes `d` levels down, directories included, have no children.
pub proof fn lemma_depth_bound(t: TreeEntry, d: nat, p: Seq<int>)
    requires
        tree_within(t, d),
        node_at(t, p) is Some,
    ensures
        p.len() <= d,
        p.len() == d ==> node_at(t, p)->Some_0.children@.len() == 0,
    decreases p.len(),
{
    if p.len() > d {
        let q = p.subrange(0, p.len() - 1);
        lemma_node_at_prefix(t, p);
        assert(q.len() >= d);
        assert(node_at(t, q) is Some);
    }
}

proof fn lemma_node_at_prefix(t: TreeEntry, p: Seq<int>)
    requires
        p.len() > 0,
        node_at(t, p) is Some,
    ensures
        node_at(t, p.subrange(0, p.len() - 1)) is Some,
        0 <= p.last() < node_at(t, p.subrange(0, p.len() - 1))->Some_0.children@.len(),
    decreases p.len(),
{
    let q = p.subrange(0, p.len() - 1);
    if p.len() == 1 {
        assert(q.len() == 0);
    } else {
        let c = t.children@[p[0]];
        lemma_node_at_prefix(c, p.drop_first());
        assert(p.drop_first().subrange(0, p.drop_first().len() - 1) =~= q.drop_first());
        assert(q[0] == p[0]);
    }
}

/// Among the children of any node, directories come before files, and within
/// each kind names ascend without regard to case.
pub proof fn lemma_children_ordered(t: TreeEntry, d: nat, p: Seq<int>, i: int, j: int)
    requires
        tree_within(t, d),
        node_at(t, p) is Some,
        0 <= i < j < node_at(t, p)->Some_0.children@.len(),
    ensures
        ({
            let c = node_at(t, p)->Some_0.children@;
            &&& kind_rank(c[i].kind) <= kind_rank(c[j].kind)
            &&& c[i].kind == c[j].kind ==> name_le(lower_of(c[i].name@), lower_of(c[j].name@))
        }),
{
    let c = node_at(t, p)->Some_0.children@;
    assert(entry_order()(c[i], c[j]));
}

} // verus!
