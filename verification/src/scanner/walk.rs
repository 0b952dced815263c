//! Recursive loading of the device tree through a directory lister.
use vstd::prelude::*;
use crate::adb::client::RemoteEntry;
use crate::error::{AppError, AppResult};
use crate::scanner::tree::{
    children_installed, entries_file_bytes, files_are_leaves, node_of_entry, same_but_totals, sd_card_labels,
    sd_card_paths, sorted_children, totals_computed, tree_files, tree_files_seq, tree_total, tree_total_seq,
    FileNode, Scanner,
};
use crate::text::lines;

verus! {

/// Every child sits one level below its parent, all the way down.
pub open spec fn depths_consistent(n: FileNode) -> bool
    decreases n,
{
    forall|i: int|
        0 <= i < n.children@.len() ==> (#[trigger] n.children@[i]).depth == n.depth + 1
            && depths_consistent(n.children@[i])
}

/// Every directory above depth `max_depth` has had its children loaded.
pub open spec fn loaded_below(n: FileNode, max_depth: int) -> bool
    decreases n,
{
    n.depth < max_depth && n.is_dir ==> {
        &&& n.loaded
        &&& forall|i: int|
            0 <= i < n.children@.len() ==> loaded_below(#[trigger] n.children@[i], max_depth)
    }
}

/// `b` is `a` with possibly other children and totals: the fields that
/// describe the node itself are unchanged.
pub open spec fn same_node(a: FileNode, b: FileNode) -> bool {
    &&& b.name == a.name
    &&& b.path == a.path
    &&& b.is_dir == a.is_dir
    &&& b.size == a.size
    &&& b.mtime == a.mtime
    &&& b.selected == a.selected
    &&& b.expanded == a.expanded
    &&& b.depth == a.depth
}

/// The totals stored in `n` are those of its tree.
pub open spec fn totals_hold(n: FileNode) -> bool {
    n.total_size == tree_total(n) && n.file_count == tree_files(n)
}

pub(crate) proof fn lemma_totals_keep_shape(a: FileNode, b: FileNode, m: int)
    requires
        totals_computed(a, b),
    ensures
        depths_consistent(a) ==> depths_consistent(b),
        loaded_below(a, m) ==> loaded_below(b, m),
    decreases a,
{
    if a.is_dir {
        assert forall|i: int| 0 <= i < b.children@.len() implies {
            &&& (depths_consistent(a) ==> (#[trigger] b.children@[i]).depth == b.depth + 1
                && depths_consistent(b.children@[i]))
            &&& (loaded_below(a, m) && a.depth < m ==> loaded_below(b.children@[i], m))
        } by {
            assert(totals_computed(a.children@[i], b.children@[i]));
            lemma_totals_keep_shape(a.children@[i], b.children@[i], m);
        }
    } else {
        assert(b.children == a.children);
    }
}

pub(crate) proof fn lemma_sorted_children_all(s: Seq<FileNode>, pf: bool, p: spec_fn(FileNode) -> bool)
    requires
        forall|j: int| 0 <= j < s.len() ==> p(#[trigger] s[j]),
    ensures
        forall|k: int|
            0 <= k < sorted_children(s, pf).len() ==> p(#[trigger] sorted_children(s, pf)[k]),
    decreases s.len(),
{
    if s.len() > 0 {
        lemma_sorted_children_all(s.drop_last(), pf, p);
        let t = sorted_children(s.drop_last(), pf);
        let q = crate::scanner::tree::insert_pos(t, s.last(), pf, 0);
        crate::scanner::tree::lemma_insert_pos_bounds(t, s.last(), pf, 0);
        let r = t.insert(q, s.last());
        assert forall|k: int| 0 <= k < r.len() implies p(#[trigger] r[k]) by {
            if k < q {
                assert(r[k] == t[k]);
            } else if k == q {
                assert(r[k] == s[s.len() - 1]);
            } else {
                assert(r[k] == t[k - 1]);
            }
        }
    }
}

/// The totals of a subtree, or `None` when its bytes or its file count do
/// not fit in 64 bits.
pub fn checked_totals(n: &FileNode) -> (r: Option<(u64, u64)>)
    ensures
        match r {
            Some(p) => p.0 == tree_total(*n) && p.1 == tree_files(*n),
            None => tree_total(*n) > u64::MAX || tree_files(*n) > u64::MAX,
        },
    decreases n,
{
    if !n.is_dir {
        return Some((n.size, 1));
    }
    let ghost cs = n.children@;
    let mut t: u64 = 0;
    let mut f: u64 = 0;
    let mut i: usize = 0;
    while i < n.children.len()
        invariant
            cs == n.children@,
            n.is_dir,
            i <= cs.len(),
            t == tree_total_seq(cs.take(i as int)),
            f == tree_files_seq(cs.take(i as int)),
        decreases cs.len() - i,
    {
        let c = &n.children[i];
        proof {
            assert(decreases_to!(*n => n.children));
            assert(decreases_to!(n.children => n.children@));
            assert(decreases_to!(*n => *c));
            assert(cs.take(i + 1).drop_last() =~= cs.take(i as int));
            assert(cs.take(i + 1).last() == *c);
            crate::scanner::tree::lemma_tree_total_prefix(cs, i + 1);
            crate::scanner::tree::lemma_tree_files_prefix(cs, i + 1);
        }
        match checked_totals(c) {
            None => {
                return None;
            },
            Some(p) => {
                let (ct, cf) = p;
                if t > u64::MAX - ct || f > u64::MAX - cf {
                    return None;
                }
                t = t + ct;
                f = f + cf;
            },
        }
        i = i + 1;
    }
    proof {
        assert(cs.take(i as int) =~= cs);
    }
    Some((t, f))
}

/// The totals of a sequence of subtrees, or `None` when they do not fit in 64 bits.
pub fn checked_totals_seq(cs: &Vec<FileNode>) -> (r: Option<(u64, u64)>)
    ensures
        match r {
            Some(p) => p.0 == tree_total_seq(cs@) && p.1 == tree_files_seq(cs@),
            None => tree_total_seq(cs@) > u64::MAX || tree_files_seq(cs@) > u64::MAX,
        },
{
    let mut t: u64 = 0;
    let mut f: u64 = 0;
    let mut i: usize = 0;
    while i < cs.len()
        invariant
            i <= cs@.len(),
            t == tree_total_seq(cs@.take(i as int)),
            f == tree_files_seq(cs@.take(i as int)),
        decreases cs@.len() - i,
    {
        proof {
            assert(cs@.take(i + 1).drop_last() =~= cs@.take(i as int));
            assert(cs@.take(i + 1).last() == cs@[i as int]);
            crate::scanner::tree::lemma_tree_total_prefix(cs@, i + 1);
            crate::scanner::tree::lemma_tree_files_prefix(cs@, i + 1);
        }
        match checked_totals(&cs[i]) {
            None => {
                return None;
            },
            Some(p) => {
                let (ct, cf) = p;
                if t > u64::MAX - ct || f > u64::MAX - cf {
                    return None;
                }
                t = t + ct;
                f = f + cf;
            },
        }
        i = i + 1;
    }
    proof {
        assert(cs@.take(i as int) =~= cs@);
    }
    Some((t, f))
}

/// Device paths of the top-level storage nodes that a `/storage` listing yields.
pub open spec fn media_paths(storage_listing: AppResult<String>) -> Seq<Seq<char>> {
    match storage_listing {
        Ok(out) => seq!["/sdcard"@] + sd_card_paths(lines(out@), lines(out@).len() as int),
        Err(_) => seq!["/sdcard"@],
    }
}

/// Labels of the top-level storage nodes that a `/storage` listing yields.
pub open spec fn media_labels(storage_listing: AppResult<String>) -> Seq<Seq<char>> {
    match storage_listing {
        Ok(out) => seq!["Internal Storage"@] + sd_card_labels(
            lines(out@),
            lines(out@).len() as int,
        ),
        Err(_) => seq!["Internal Storage"@],
    }
}

/// Whether the files among listed entries sum to at most `u64::MAX` bytes.
pub fn entries_bytes_fit(entries: &Vec<RemoteEntry>) -> (b: bool)
    ensures
        b == (entries_file_bytes(entries@) <= u64::MAX),
{
    let mut sum: u64 = 0;
    let mut i: usize = 0;
    while i < entries.len()
        invariant
            i <= entries@.len(),
            sum == entries_file_bytes(entries@.take(i as int)),
        decreases entries@.len() - i,
    {
        proof {
            assert(entries@.take(i + 1).drop_last() =~= entries@.take(i as int));
            lemma_entries_bytes_prefix(entries@, i + 1);
        }
        if !entries[i].is_dir {
            if sum > u64::MAX - entries[i].size {
                return false;
            }
            sum = sum + entries[i].size;
        }
        i = i + 1;
    }
    proof {
        assert(entries@.take(i as int) =~= entries@);
    }
    true
}

proof fn lemma_entries_bytes_prefix(es: Seq<RemoteEntry>, i: int)
    requires
        0 <= i <= es.len(),
    ensures
        entries_file_bytes(es.take(i)) <= entries_file_bytes(es),
    decreases es.len(),
{
    if i < es.len() {
        assert(es.drop_last().take(i) =~= es.take(i));
        lemma_entries_bytes_prefix(es.drop_last(), i);
    } else {
        assert(es.take(i) =~= es);
    }
}

/// The error reported when the sizes below a directory do not fit in 64 bits.
pub fn totals_overflow(path: &str) -> (e: AppError)
    ensures
        e matches AppError::Protocol(m) && m@ == "size totals overflow below "@ + path@,
{
    let mut m = crate::text::chars_of("size totals overflow below ");
    crate::text::append_vec(&mut m, &crate::text::chars_of(path));
    AppError::Protocol(crate::text::string_of(&m))
}

/// `b` is `a` up to the totals, all the way down.
pub open spec fn same_shape(a: FileNode, b: FileNode) -> bool
    decreases a,
{
    &&& same_but_totals(a, b)
    &&& b.children@.len() == a.children@.len()
    &&& forall|i: int|
        0 <= i < a.children@.len() ==> same_shape(#[trigger] a.children@[i], b.children@[i])
}

pub(crate) proof fn lemma_same_shape_refl(a: FileNode)
    ensures
        same_shape(a, a),
    decreases a,
{
    assert forall|i: int| 0 <= i < a.children@.len() implies same_shape(
        #[trigger] a.children@[i],
        a.children@[i],
    ) by {
        lemma_same_shape_refl(a.children@[i]);
    }
}

pub(crate) proof fn lemma_same_shape_trans(a: FileNode, b: FileNode, c: FileNode)
    requires
        same_shape(a, b),
        same_shape(b, c),
    ensures
        same_shape(a, c),
    decreases a,
{
    assert forall|i: int| 0 <= i < a.children@.len() implies same_shape(
        #[trigger] a.children@[i],
        c.children@[i],
    ) by {
        assert(same_shape(b.children@[i], c.children@[i]));
        lemma_same_shape_trans(a.children@[i], b.children@[i], c.children@[i]);
    }
}

pub(crate) proof fn lemma_totals_computed_shape(a: FileNode, b: FileNode)
    requires
        totals_computed(a, b),
    ensures
        same_shape(a, b),
    decreases a,
{
    if a.is_dir {
        assert forall|i: int| 0 <= i < a.children@.len() implies same_shape(
            #[trigger] a.children@[i],
            b.children@[i],
        ) by {
            assert(totals_computed(a.children@[i], b.children@[i]));
            lemma_totals_computed_shape(a.children@[i], b.children@[i]);
        }
    } else {
        assert(b.children == a.children);
        lemma_same_shape_refl(a);
        assert forall|i: int| 0 <= i < a.children@.len() implies same_shape(
            #[trigger] a.children@[i],
            b.children@[i],
        ) by {}
    }
}

/// `list` answered a request for the directory at `path` with the entries `es`.
pub open spec fn listed_by<F: Fn(&str) -> AppResult<Vec<RemoteEntry>>>(
    list: F,
    path: Seq<char>,
    es: Seq<RemoteEntry>,
) -> bool {
    exists|s: &str, v: Vec<RemoteEntry>|
        #[trigger] call_ensures(list, (s,), Ok::<Vec<RemoteEntry>, AppError>(v)) && s@ == path
            && v@ == es
}

/// `made` are the nodes made from the listing `es` one level down at
/// `depth`, and `cs` are, up to what happened below them, those nodes in
/// browser order.
pub open spec fn made_from(made: Seq<FileNode>, es: Seq<RemoteEntry>, depth: int, cs: Seq<FileNode>) -> bool {
    &&& made.len() == es.len()
    &&& forall|i: int| 0 <= i < made.len() ==> node_of_entry(#[trigger] made[i], es[i], depth)
    &&& cs.len() == made.len()
    &&& forall|i: int|
        0 <= i < cs.len() ==> same_node(#[trigger] sorted_children(made, false)[i], cs[i])
}

/// The children `cs` are, up to what happened below them, the nodes made
/// from the listing `es` one level down at `depth`, in browser order.
pub open spec fn children_of_listing(cs: Seq<FileNode>, es: Seq<RemoteEntry>, depth: int) -> bool {
    exists|made: Seq<FileNode>| #[trigger] made_from(made, es, depth, cs)
}

/// `y` is what a walk down to depth `max` through `list` makes of a node
/// fresh from a listing: a directory above `max` is listed and its children
/// walked in turn; anything else stays unlisted and childless.
pub open spec fn fresh_walked<F: Fn(&str) -> AppResult<Vec<RemoteEntry>>>(
    y: FileNode,
    max: int,
    list: F,
) -> bool
    decreases y,
{
    if y.depth >= max || !y.is_dir {
        !y.loaded && y.children@.len() == 0
    } else {
        &&& y.loaded
        &&& exists|es: Seq<RemoteEntry>|
            #[trigger] listed_by(list, y.path@, es) && children_of_listing(
                y.children@,
                es,
                y.depth + 1,
            )
        &&& forall|i: int|
            0 <= i < y.children@.len() ==> fresh_walked(#[trigger] y.children@[i], max, list)
    }
}

/// `b` is, up to the totals, what a walk down to depth `max` that lists
/// directories through `list` makes of the tree `a`: nothing changes at or
/// below `max`; above it, a directory whose children were never listed gets
/// as children the nodes of a listing that `list` returned for its path, in
/// browser order, walked in turn, and the children of any other node are
/// walked (directories) or kept (files).
pub open spec fn walked<F: Fn(&str) -> AppResult<Vec<RemoteEntry>>>(
    a: FileNode,
    b: FileNode,
    max: int,
    list: F,
) -> bool
    decreases a,
{
    if a.depth >= max {
        same_shape(a, b)
    } else {
        &&& same_node(a, b)
        &&& b.loaded == (a.loaded || a.is_dir)
        &&& if a.is_dir && !a.loaded {
            &&& exists|es: Seq<RemoteEntry>|
                #[trigger] listed_by(list, a.path@, es) && children_of_listing(
                    b.children@,
                    es,
                    a.depth + 1,
                )
            &&& forall|i: int|
                0 <= i < b.children@.len() ==> fresh_walked(#[trigger] b.children@[i], max, list)
        } else {
            &&& b.children@.len() == a.children@.len()
            &&& forall|i: int|
                0 <= i < a.children@.len() ==> if (#[trigger] a.children@[i]).is_dir {
                    walked(a.children@[i], b.children@[i], max, list)
                } else {
                    same_shape(a.children@[i], b.children@[i])
                }
        }
    }
}

pub(crate) proof fn lemma_fresh_walked_shape<F: Fn(&str) -> AppResult<Vec<RemoteEntry>>>(
    y: FileNode,
    z: FileNode,
    max: int,
    list: F,
)
    requires
        fresh_walked(y, max, list),
        same_shape(y, z),
    ensures
        fresh_walked(z, max, list),
    decreases y,
{
    if y.depth >= max || !y.is_dir {
    } else {
        let es = choose|es: Seq<RemoteEntry>|
            #[trigger] listed_by(list, y.path@, es) && children_of_listing(
                y.children@,
                es,
                y.depth + 1,
            );
        let made = choose|made: Seq<FileNode>| #[trigger] made_from(made, es, y.depth + 1, y.children@);
        assert(z.children@.len() == y.children@.len() && z.depth == y.depth);
        assert forall|i: int| 0 <= i < z.children@.len() implies same_node(
            #[trigger] sorted_children(made, false)[i],
            z.children@[i],
        ) by {
            assert(same_node(sorted_children(made, false)[i], y.children@[i]));
            assert(same_shape(y.children@[i], z.children@[i]));
        }
        assert(made_from(made, es, z.depth + 1, z.children@));
        assert forall|i: int| 0 <= i < z.children@.len() implies fresh_walked(
            #[trigger] z.children@[i],
            max,
            list,
        ) by {
            assert(same_shape(y.children@[i], z.children@[i]));
            lemma_fresh_walked_shape(y.children@[i], z.children@[i], max, list);
        }
    }
}

/// A walk relates trees up to their totals: a shape-equal result is a
/// result of the same walk.
pub(crate) proof fn lemma_walked_shape<F: Fn(&str) -> AppResult<Vec<RemoteEntry>>>(
    a: FileNode,
    b: FileNode,
    c: FileNode,
    max: int,
    list: F,
)
    requires
        walked(a, b, max, list),
        same_shape(b, c),
    ensures
        walked(a, c, max, list),
    decreases a,
{
    if a.depth >= max {
        lemma_same_shape_trans(a, b, c);
    } else if a.is_dir && !a.loaded {
        let es = choose|es: Seq<RemoteEntry>|
            #[trigger] listed_by(list, a.path@, es) && children_of_listing(
                b.children@,
                es,
                a.depth + 1,
            );
        let made = choose|made: Seq<FileNode>| #[trigger] made_from(made, es, a.depth + 1, b.children@);
        assert(c.children@.len() == b.children@.len());
        assert forall|i: int| 0 <= i < c.children@.len() implies same_node(
            #[trigger] sorted_children(made, false)[i],
            c.children@[i],
        ) by {
            assert(same_node(sorted_children(made, false)[i], b.children@[i]));
            assert(same_shape(b.children@[i], c.children@[i]));
        }
        assert(made_from(made, es, a.depth + 1, c.children@));
        assert forall|i: int| 0 <= i < c.children@.len() implies fresh_walked(
            #[trigger] c.children@[i],
            max,
            list,
        ) by {
            assert(same_shape(b.children@[i], c.children@[i]));
            lemma_fresh_walked_shape(b.children@[i], c.children@[i], max, list);
        }
    } else {
        assert forall|i: int| 0 <= i < a.children@.len() implies if (
        #[trigger] a.children@[i]).is_dir {
            walked(a.children@[i], c.children@[i], max, list)
        } else {
            same_shape(a.children@[i], c.children@[i])
        } by {
            assert(same_shape(b.children@[i], c.children@[i]));
            if a.children@[i].is_dir {
                lemma_walked_shape(a.children@[i], b.children@[i], c.children@[i], max, list);
            } else {
                lemma_same_shape_trans(a.children@[i], b.children@[i], c.children@[i]);
            }
        }
    }
}

/// What a walk makes of a node that has no children and was never listed
/// is a fresh walk.
pub(crate) proof fn lemma_walked_fresh<F: Fn(&str) -> AppResult<Vec<RemoteEntry>>>(
    x: FileNode,
    y: FileNode,
    max: int,
    list: F,
)
    requires
        x.children@.len() == 0,
        !x.loaded,
        x.is_dir ==> walked(x, y, max, list),
        !x.is_dir ==> same_shape(x, y),
    ensures
        fresh_walked(y, max, list),
{
}

/// A walk keeps the fields that describe each node.
pub(crate) proof fn lemma_walked_same_node<F: Fn(&str) -> AppResult<Vec<RemoteEntry>>>(
    a: FileNode,
    b: FileNode,
    max: int,
    list: F,
)
    requires
        walked(a, b, max, list),
    ensures
        same_node(a, b),
{
}

/// `list` failed when asked for the directory at `path`.
pub open spec fn list_failed_at<F: Fn(&str) -> AppResult<Vec<RemoteEntry>>>(
    list: F,
    path: Seq<char>,
) -> bool {
    exists|s: &str, e: AppError|
        #[trigger] call_ensures(list, (s,), Err::<Vec<RemoteEntry>, AppError>(e)) && s@ == path
}

/// A storage root of the media tree after its first level was asked for:
/// either listed through `list`, its children the fresh nodes of that
/// listing, or left unlisted and empty because `list` failed for it or
/// listed more bytes than the totals hold.
pub open spec fn first_level_listed<F: Fn(&str) -> AppResult<Vec<RemoteEntry>>>(
    n: FileNode,
    list: F,
) -> bool {
    if n.loaded {
        &&& exists|es: Seq<RemoteEntry>|
            #[trigger] listed_by(list, n.path@, es) && children_of_listing(
                n.children@,
                es,
                n.depth + 1,
            )
        &&& forall|i: int|
            0 <= i < n.children@.len() ==> !(#[trigger] n.children@[i]).loaded
                && n.children@[i].children@.len() == 0
    } else {
        &&& n.children@.len() == 0
        &&& list_failed_at(list, n.path@) || exists|es: Seq<RemoteEntry>|
            #[trigger] listed_by(list, n.path@, es) && entries_file_bytes(es) > u64::MAX
    }
}

proof fn lemma_first_level_shape<F: Fn(&str) -> AppResult<Vec<RemoteEntry>>>(
    n: FileNode,
    m: FileNode,
    list: F,
)
    requires
        first_level_listed(n, list),
        same_shape(n, m),
    ensures
        first_level_listed(m, list),
{
    if n.loaded {
        let es = choose|es: Seq<RemoteEntry>|
            #[trigger] listed_by(list, n.path@, es) && children_of_listing(
                n.children@,
                es,
                n.depth + 1,
            );
        let made = choose|made: Seq<FileNode>| #[trigger] made_from(made, es, n.depth + 1, n.children@);
        assert forall|i: int|
            #![trigger sorted_children(made, false)[i]]
            #![trigger m.children@[i]]
            0 <= i < m.children@.len() implies same_node(
                sorted_children(made, false)[i],
                m.children@[i],
            ) && !m.children@[i].loaded && m.children@[i].children@.len() == 0 by {
            assert(same_node(sorted_children(made, false)[i], n.children@[i]));
            assert(same_shape(n.children@[i], m.children@[i]));
        }
        assert(made_from(made, es, m.depth + 1, m.children@));
        assert(listed_by(list, m.path@, es));
    } else if !list_failed_at(list, n.path@) {
        let es = choose|es: Seq<RemoteEntry>|
            #[trigger] listed_by(list, n.path@, es) && entries_file_bytes(es) > u64::MAX;
        assert(listed_by(list, m.path@, es));
    }
}

/// Walking a tree that is already loaded down to the depth changes nothing
/// but the totals: a directory that was listed before is not listed again.
pub proof fn lemma_walk_of_loaded_tree<F: Fn(&str) -> AppResult<Vec<RemoteEntry>>>(
    a: FileNode,
    b: FileNode,
    max: int,
    list: F,
)
    requires
        files_are_leaves(a),
        loaded_below(a, max),
        walked(a, b, max, list),
    ensures
        same_shape(a, b),
    decreases a,
{
    if a.depth < max {
        assert forall|i: int| 0 <= i < a.children@.len() implies same_shape(
            #[trigger] a.children@[i],
            b.children@[i],
        ) by {
            let c = a.children@[i];
            if c.is_dir {
                assert(loaded_below(c, max));
                lemma_walk_of_loaded_tree(c, b.children@[i], max, list);
            }
        }
    }
}

/// `x` is a node of the tree `n`: `n` itself or a node below it.
pub open spec fn in_tree(n: FileNode, x: FileNode) -> bool
    decreases n,
{
    n == x || exists|i: int| 0 <= i < n.children@.len() && in_tree(#[trigger] n.children@[i], x)
}

/// `e` is the protocol error that names `path` as a directory whose sizes
/// do not fit in the 64-bit totals.
pub open spec fn overflow_at(e: AppError, path: Seq<char>) -> bool {
    e matches AppError::Protocol(m) && m@ == "size totals overflow below "@ + path
}

/// The listing `es` of the directory `x` holds more than the 64-bit totals
/// can count: its files' bytes alone, or (where `links` says that `..` links
/// are kept) those bytes or entries together with the kept links' totals.
pub open spec fn listing_too_big(x: FileNode, es: Seq<RemoteEntry>, links: bool) -> bool {
    ||| entries_file_bytes(es) > u64::MAX
    ||| links && tree_total_seq(crate::scanner::local::parent_links(x.children@))
        + entries_file_bytes(es) > u64::MAX
    ||| links && tree_files_seq(crate::scanner::local::parent_links(x.children@)) + es.len()
        > u64::MAX
}

/// What a walk that left the tree `n` may have stopped with: an error that
/// `list` returned for a directory of `n`; the overflow error naming a
/// directory of `n`, never loaded, that `list` listed with more than the
/// totals can count; or the overflow error naming a node of `n` whose totals
/// do not fit in 64 bits.
pub open spec fn walk_failure<F: Fn(&str) -> AppResult<Vec<RemoteEntry>>>(
    n: FileNode,
    list: F,
    e: AppError,
    links: bool,
) -> bool {
    ||| exists|s: &str, x: FileNode|
        #![trigger call_ensures(list, (s,), Err::<Vec<RemoteEntry>, AppError>(e)), in_tree(n, x)]
        call_ensures(list, (s,), Err::<Vec<RemoteEntry>, AppError>(e)) && in_tree(n, x)
            && x.is_dir && x.path@ == s@
    ||| exists|x: FileNode, es: Seq<RemoteEntry>|
        #![trigger listed_by(list, x.path@, es), in_tree(n, x)]
        listed_by(list, x.path@, es) && in_tree(n, x) && x.is_dir && !x.loaded && overflow_at(
            e,
            x.path@,
        ) && listing_too_big(x, es, links)
    ||| exists|x: FileNode|
        #[trigger] in_tree(n, x) && overflow_at(e, x.path@) && (tree_total(x) > u64::MAX
            || tree_files(x) > u64::MAX)
}

/// `b` is what a walk down to depth `max` through `list` that stopped part
/// way may have made of the tree `a`: as in [`walked`], except that a
/// directory whose children were never listed may still be as it was, and
/// that the walk of a subtree may itself have stopped part way.
pub open spec fn partly_walked<F: Fn(&str) -> AppResult<Vec<RemoteEntry>>>(
    a: FileNode,
    b: FileNode,
    max: int,
    list: F,
) -> bool
    decreases a,
{
    if a.depth >= max {
        same_shape(a, b)
    } else if a.is_dir && !a.loaded {
        ||| b == a
        ||| {
            &&& same_node(a, b)
            &&& b.loaded
            &&& exists|es: Seq<RemoteEntry>|
                #[trigger] listed_by(list, a.path@, es) && children_of_listing(
                    b.children@,
                    es,
                    a.depth + 1,
                )
            &&& forall|i: int|
                0 <= i < b.children@.len() ==> fresh_partly_walked(
                    #[trigger] b.children@[i],
                    max,
                    list,
                )
        }
    } else {
        &&& same_node(a, b)
        &&& b.loaded == a.loaded
        &&& b.children@.len() == a.children@.len()
        &&& forall|i: int|
            0 <= i < a.children@.len() ==> if (#[trigger] a.children@[i]).is_dir {
                partly_walked(a.children@[i], b.children@[i], max, list)
            } else {
                same_shape(a.children@[i], b.children@[i])
            }
    }
}

/// `y` is what a walk that stopped part way may have made of a node fresh
/// from a listing: left unlisted and childless, or listed through `list`
/// with its children in turn walked part way.
pub open spec fn fresh_partly_walked<F: Fn(&str) -> AppResult<Vec<RemoteEntry>>>(
    y: FileNode,
    max: int,
    list: F,
) -> bool
    decreases y,
{
    if y.depth >= max || !y.is_dir || !y.loaded {
        !y.loaded && y.children@.len() == 0
    } else {
        &&& exists|es: Seq<RemoteEntry>|
            #[trigger] listed_by(list, y.path@, es) && children_of_listing(
                y.children@,
                es,
                y.depth + 1,
            )
        &&& forall|i: int|
            0 <= i < y.children@.len() ==> fresh_partly_walked(#[trigger] y.children@[i], max, list)
    }
}

pub(crate) proof fn lemma_in_tree_self(n: FileNode)
    ensures
        in_tree(n, n),
{
}

/// A failure of a child's walk is a failure of its parent's.
pub(crate) proof fn lemma_failure_lifts<F: Fn(&str) -> AppResult<Vec<RemoteEntry>>>(
    parent: FileNode,
    k: int,
    list: F,
    e: AppError,
    links: bool,
)
    requires
        0 <= k < parent.children@.len(),
        walk_failure(parent.children@[k], list, e, links),
    ensures
        walk_failure(parent, list, e, links),
{
    let c = parent.children@[k];
    assert forall|x: FileNode| in_tree(c, x) implies #[trigger] in_tree(parent, x) by {
        assert(in_tree(parent.children@[k], x));
    }
    if exists|s: &str, x: FileNode|
        #![trigger call_ensures(list, (s,), Err::<Vec<RemoteEntry>, AppError>(e)), in_tree(c, x)]
        call_ensures(list, (s,), Err::<Vec<RemoteEntry>, AppError>(e)) && in_tree(c, x) && x.is_dir
            && x.path@ == s@ {
        let (s, x) = choose|s: &str, x: FileNode|
            #![trigger call_ensures(list, (s,), Err::<Vec<RemoteEntry>, AppError>(e)), in_tree(c, x)]
            call_ensures(list, (s,), Err::<Vec<RemoteEntry>, AppError>(e)) && in_tree(c, x)
                && x.is_dir && x.path@ == s@;
        assert(in_tree(parent, x));
    } else if exists|x: FileNode, es: Seq<RemoteEntry>|
        #![trigger listed_by(list, x.path@, es), in_tree(c, x)]
        listed_by(list, x.path@, es) && in_tree(c, x) && x.is_dir && !x.loaded && overflow_at(
            e,
            x.path@,
        ) && listing_too_big(x, es, links) {
        let (x, es) = choose|x: FileNode, es: Seq<RemoteEntry>|
            #![trigger listed_by(list, x.path@, es), in_tree(c, x)]
            listed_by(list, x.path@, es) && in_tree(c, x) && x.is_dir && !x.loaded && overflow_at(
                e,
                x.path@,
            ) && listing_too_big(x, es, links);
        assert(in_tree(parent, x));
    } else {
        let x = choose|x: FileNode|
            #[trigger] in_tree(c, x) && overflow_at(e, x.path@) && (tree_total(x) > u64::MAX
                || tree_files(x) > u64::MAX);
        assert(in_tree(parent, x));
    }
}

/// A tree is a walk of itself that stopped before doing anything.
pub(crate) proof fn lemma_partly_refl<F: Fn(&str) -> AppResult<Vec<RemoteEntry>>>(
    a: FileNode,
    max: int,
    list: F,
)
    ensures
        partly_walked(a, a, max, list),
    decreases a,
{
    if a.depth >= max {
        lemma_same_shape_refl(a);
    } else if !(a.is_dir && !a.loaded) {
        assert forall|i: int| 0 <= i < a.children@.len() implies if (
        #[trigger] a.children@[i]).is_dir {
            partly_walked(a.children@[i], a.children@[i], max, list)
        } else {
            same_shape(a.children@[i], a.children@[i])
        } by {
            if a.children@[i].is_dir {
                lemma_partly_refl(a.children@[i], max, list);
            } else {
                lemma_same_shape_refl(a.children@[i]);
            }
        }
    }
}

pub(crate) proof fn lemma_fresh_walked_partly<F: Fn(&str) -> AppResult<Vec<RemoteEntry>>>(
    y: FileNode,
    max: int,
    list: F,
)
    requires
        fresh_walked(y, max, list),
    ensures
        fresh_partly_walked(y, max, list),
    decreases y,
{
    if !(y.depth >= max || !y.is_dir) {
        assert forall|i: int| 0 <= i < y.children@.len() implies fresh_partly_walked(
            #[trigger] y.children@[i],
            max,
            list,
        ) by {
            lemma_fresh_walked_partly(y.children@[i], max, list);
        }
    }
}

/// A finished walk is one that stopped no earlier than the end.
pub(crate) proof fn lemma_walked_partly<F: Fn(&str) -> AppResult<Vec<RemoteEntry>>>(
    a: FileNode,
    b: FileNode,
    max: int,
    list: F,
)
    requires
        walked(a, b, max, list),
    ensures
        partly_walked(a, b, max, list),
    decreases a,
{
    if a.depth >= max {
    } else if a.is_dir && !a.loaded {
        assert forall|i: int| 0 <= i < b.children@.len() implies fresh_partly_walked(
            #[trigger] b.children@[i],
            max,
            list,
        ) by {
            lemma_fresh_walked_partly(b.children@[i], max, list);
        }
    } else {
        assert forall|i: int| 0 <= i < a.children@.len() implies if (
        #[trigger] a.children@[i]).is_dir {
            partly_walked(a.children@[i], b.children@[i], max, list)
        } else {
            same_shape(a.children@[i], b.children@[i])
        } by {
            if a.children@[i].is_dir {
                lemma_walked_partly(a.children@[i], b.children@[i], max, list);
            }
        }
    }
}

/// A walk, finished or not, keeps the fields that describe each node.
pub(crate) proof fn lemma_partly_same_node<F: Fn(&str) -> AppResult<Vec<RemoteEntry>>>(
    a: FileNode,
    b: FileNode,
    max: int,
    list: F,
)
    requires
        partly_walked(a, b, max, list),
    ensures
        same_node(a, b),
{
}

/// What a walk that stopped part way makes of a node that has no children
/// and was never listed.
pub(crate) proof fn lemma_partly_fresh<F: Fn(&str) -> AppResult<Vec<RemoteEntry>>>(
    x: FileNode,
    y: FileNode,
    max: int,
    list: F,
)
    requires
        x.children@.len() == 0,
        !x.loaded,
        x.is_dir ==> partly_walked(x, y, max, list),
        !x.is_dir ==> same_shape(x, y),
    ensures
        fresh_partly_walked(y, max, list),
{
}

/// `cs` are the storage roots of the media tree, in order, each with its
/// first level asked for through `list`.
pub open spec fn media_first_levels<F: Fn(&str) -> AppResult<Vec<RemoteEntry>>>(
    cs: Seq<FileNode>,
    storage_listing: AppResult<String>,
    list: F,
) -> bool {
    &&& cs.map_values(|n: FileNode| n.path@) == media_paths(storage_listing)
    &&& cs.map_values(|n: FileNode| n.name@) == media_labels(storage_listing)
    &&& forall|i: int|
        0 <= i < cs.len() ==> (#[trigger] cs[i]).is_dir && cs[i].depth == 1 && first_level_listed(
            cs[i],
            list,
        )
}

impl Scanner {
    /// Loads the tree below `node` down to `max_depth`, asking `list` for the
    /// entries of every directory that has not been loaded yet.
    ///
    /// The first failure of `list` stops the walk and is returned; the nodes
    /// loaded so far stay loaded. Directories at or below `max_depth` are left
    /// alone. When the sizes listed below a directory do not fit in 64 bits
    /// the walk stops with a protocol error naming that directory.
    pub fn load_recursive<F: Fn(&str) -> AppResult<Vec<RemoteEntry>>>(
        node: &mut FileNode,
        max_depth: usize,
        list: &F,
    ) -> (r: AppResult<()>)
        requires
            forall|p: &str| list.requires((p,)),
            depths_consistent(*old(node)),
        ensures
            depths_consistent(*final(node)),
            same_node(*old(node), *final(node)),
            old(node).depth >= max_depth ==> *final(node) == *old(node) && r is Ok,
            r is Ok ==> walked(*old(node), *final(node), max_depth as int, *list),
            r is Ok && old(node).depth < max_depth ==> loaded_below(*final(node), max_depth as int)
                && totals_hold(*final(node)),
            r is Err ==> partly_walked(*old(node), *final(node), max_depth as int, *list),
            r matches Err(e) ==> walk_failure(*final(node), *list, e, false),
        decreases max_depth - old(node).depth,
    {
        if node.depth >= max_depth {
            proof {
                lemma_same_shape_refl(*node);
            }
            return Ok(());
        }
        let ghost pre = *node;
        let ghost mut made: Seq<FileNode> = Seq::empty();
        let ghost mut es: Seq<RemoteEntry> = Seq::empty();
        if node.is_dir && !node.loaded {
            let arg = node.path.as_str();
            let answer = list(arg);
            let entries = match answer {
                Ok(es) => es,
                Err(e) => {
                    proof {
                        assert(call_ensures(*list, (arg,), Err::<Vec<RemoteEntry>, AppError>(e)));
                        lemma_in_tree_self(*node);
                        lemma_partly_refl(*node, max_depth as int, *list);
                    }
                    return Err(e);
                },
            };
            proof {
                assert(call_ensures(*list, (arg,), Ok::<Vec<RemoteEntry>, AppError>(entries)));
                assert(listed_by(*list, pre.path@, entries@));
            }
            if !entries_bytes_fit(&entries) {
                let e = totals_overflow(node.path.as_str());
                proof {
                    lemma_in_tree_self(*node);
                    lemma_partly_refl(*node, max_depth as int, *list);
                    assert(listed_by(*list, node.path@, entries@));
                    assert(listing_too_big(*node, entries@, false));
                }
                return Err(e);
            }
            proof {
                es = entries@;
            }
            Scanner::load_children(node, entries);
            proof {
                made = choose|made: Seq<FileNode>|
                    #![trigger sorted_children(made, false)]
                    made.len() == es.len() && (forall|i: int|
                        0 <= i < made.len() ==> node_of_entry(
                            #[trigger] made[i],
                            es[i],
                            pre.depth + 1,
                        )) && children_installed(pre, *node, sorted_children(made, false));
                let kids = sorted_children(made, false);
                crate::scanner::tree::lemma_sorted_children_len(made, false);
                let p = |x: FileNode| x.depth == pre.depth + 1 && x.children@.len() == 0 && !x.loaded;
                assert forall|j: int| 0 <= j < made.len() implies p(#[trigger] made[j]) by {
                    assert(node_of_entry(made[j], es[j], pre.depth + 1));
                }
                lemma_sorted_children_all(made, false, p);
                assert forall|i: int| 0 <= i < node.children@.len() implies (
                #[trigger] node.children@[i]).depth == node.depth + 1 && depths_consistent(
                    node.children@[i],
                ) && node.children@[i].children@.len() == 0 && !node.children@[i].loaded by {
                    assert(p(kids[i]));
                    assert(totals_computed(kids[i], node.children@[i]));
                    if !kids[i].is_dir {
                        assert(node.children@[i].children == kids[i].children);
                    }
                    assert(node.children@[i].children@.len() == 0);
                }
            }
        }
        let ghost mid = *node;
        let mut cs: Vec<FileNode> = Vec::new();
        std::mem::swap(&mut cs, &mut node.children);
        let ghost old_cs = cs@;
        let mut out: Vec<FileNode> = Vec::new();
        let mut failure: Option<AppError> = None;
        for c in it: cs
            invariant
                it.seq() == old_cs,
                old_cs == mid.children@,
                forall|p: &str| list.requires((p,)),
                depths_consistent(mid),
                mid.depth < max_depth,
                mid.depth == old(node).depth,
                out@.len() == it.index(),
                forall|k: int|
                    0 <= k < out@.len() ==> (#[trigger] out@[k]).depth == mid.depth + 1
                        && depths_consistent(out@[k]),
                failure is None ==> forall|k: int|
                    0 <= k < out@.len() ==> loaded_below(#[trigger] out@[k], max_depth as int),
                failure is None ==> forall|k: int|
                    0 <= k < out@.len() ==> if old_cs[k].is_dir {
                        walked(old_cs[k], #[trigger] out@[k], max_depth as int, *list)
                    } else {
                        out@[k] == old_cs[k]
                    },
                failure matches Some(e) ==> exists|j: int|
                    0 <= j < out@.len() && walk_failure(#[trigger] out@[j], *list, e, false),
                forall|j: int|
                    0 <= j < out@.len() ==> if old_cs[j].is_dir {
                        partly_walked(old_cs[j], #[trigger] out@[j], max_depth as int, *list)
                    } else {
                        out@[j] == old_cs[j]
                    },
        {
            let ghost k = it.index() as int;
            assert(c == old_cs[k]);
            assert(mid.children@[k].depth == mid.depth + 1 && depths_consistent(mid.children@[k]));
            let ghost before_out = out@;
            let ghost before_failure = failure;
            let mut c = c;
            if failure.is_none() && c.is_dir {
                match Scanner::load_recursive(&mut c, max_depth, list) {
                    Ok(()) => {
                        proof {
                            lemma_walked_partly(old_cs[k], c, max_depth as int, *list);
                        }
                    },
                    Err(e) => {
                        failure = Some(e);
                    },
                }
            } else if c.is_dir {
                proof {
                    lemma_partly_refl(c, max_depth as int, *list);
                }
            }
            out.push(c);
            proof {
                assert(out@[k] == c);
                assert forall|j: int| 0 <= j < k implies out@[j] == before_out[j] by {}
                if let Some(e0) = before_failure {
                    let j0 = choose|j: int|
                        0 <= j < before_out.len() && walk_failure(#[trigger] before_out[j], *list, e0, false);
                    assert(out@[j0] == before_out[j0]);
                }
            }
        }
        node.children = out;
        let ghost m = max_depth as int;
        match failure {
            Some(e) => {
                proof {
                    let j0 = choose|j: int|
                        0 <= j < out@.len() && walk_failure(#[trigger] out@[j], *list, e, false);
                    assert(node.children@[j0] == out@[j0]);
                    lemma_failure_lifts(*node, j0, *list, e, false);
                    let cur = *node;
                    if pre.is_dir && !pre.loaded {
                        let kids = sorted_children(made, false);
                        assert forall|i: int|
                            #![trigger sorted_children(made, false)[i]]
                            #![trigger cur.children@[i]]
                            0 <= i < cur.children@.len() implies same_node(
                                sorted_children(made, false)[i],
                                cur.children@[i],
                            ) && fresh_partly_walked(cur.children@[i], m, *list) by {
                            assert(totals_computed(kids[i], old_cs[i]));
                            if old_cs[i].is_dir {
                                lemma_partly_same_node(old_cs[i], cur.children@[i], m, *list);
                            } else {
                                lemma_same_shape_refl(old_cs[i]);
                            }
                            lemma_partly_fresh(old_cs[i], cur.children@[i], m, *list);
                        }
                        assert(made_from(made, es, pre.depth + 1, cur.children@));
                        assert(listed_by(*list, pre.path@, es));
                    } else {
                        assert forall|i: int| 0 <= i < pre.children@.len() implies (if (
                        #[trigger] pre.children@[i]).is_dir {
                            partly_walked(pre.children@[i], cur.children@[i], m, *list)
                        } else {
                            same_shape(pre.children@[i], cur.children@[i])
                        }) by {
                            assert(old_cs[i] == pre.children@[i]);
                            if !old_cs[i].is_dir {
                                lemma_same_shape_refl(old_cs[i]);
                            }
                        }
                    }
                }
                return Err(e);
            },
            None => {},
        }
        proof {
            let cur = *node;
            assert forall|i: int| 0 <= i < old_cs.len() implies (if (#[trigger] old_cs[i]).is_dir {
                walked(old_cs[i], cur.children@[i], m, *list)
            } else {
                same_shape(old_cs[i], cur.children@[i])
            }) by {
                if !old_cs[i].is_dir {
                    lemma_same_shape_refl(old_cs[i]);
                }
            }
            if pre.is_dir && !pre.loaded {
                let kids = sorted_children(made, false);
                assert forall|i: int|
                    #![trigger sorted_children(made, false)[i]]
                    #![trigger cur.children@[i]]
                    0 <= i < cur.children@.len() implies same_node(
                        sorted_children(made, false)[i],
                        cur.children@[i],
                    ) && fresh_walked(cur.children@[i], m, *list) by {
                    assert(totals_computed(kids[i], old_cs[i]));
                    if old_cs[i].is_dir {
                        lemma_walked_same_node(old_cs[i], cur.children@[i], m, *list);
                    }
                    lemma_walked_fresh(old_cs[i], cur.children@[i], m, *list);
                }
                assert(made_from(made, es, pre.depth + 1, cur.children@));
                assert(listed_by(*list, pre.path@, es));
            }
            assert(walked(pre, cur, m, *list));
        }
        match checked_totals(node) {
            None => {
                let e = totals_overflow(node.path.as_str());
                proof {
                    lemma_in_tree_self(*node);
                    lemma_walked_partly(pre, *node, m, *list);
                }
                return Err(e);
            },
            Some(_) => {},
        }
        let ghost before_totals = *node;
        assert(depths_consistent(before_totals));
        assert(loaded_below(before_totals, max_depth as int));
        node.compute_totals();
        proof {
            lemma_totals_keep_shape(before_totals, *node, max_depth as int);
            crate::scanner::tree::lemma_totals_stable(before_totals, *node);
            lemma_totals_computed_shape(before_totals, *node);
            lemma_walked_shape(pre, before_totals, *node, m, *list);
        }
        Ok(())
    }

    /// Builds the initial tree with common media directories: a loaded
    /// "Device Root" over internal storage and every SD card that the
    /// `/storage` listing names, each with its first level preloaded through
    /// `list` where that listing succeeds (a failed listing leaves the node
    /// unloaded). It fails only when the totals of those first levels do not
    /// fit in 64 bits, with the overflow error naming `/`.
    pub fn build_media_tree<F: Fn(&str) -> AppResult<Vec<RemoteEntry>>>(
        storage_listing: &AppResult<String>,
        list: &F,
    ) -> (r: AppResult<FileNode>)
        requires
            forall|p: &str| list.requires((p,)),
        ensures
            r matches Ok(root) ==> {
                &&& root.name@ == "Device Root"@
                &&& root.path@ == "/"@
                &&& root.is_dir && root.loaded && root.depth == 0
                &&& totals_hold(root)
                &&& depths_consistent(root)
                &&& root.children@.map_values(|n: FileNode| n.path@) == media_paths(
                    *storage_listing,
                )
                &&& root.children@.map_values(|n: FileNode| n.name@) == media_labels(
                    *storage_listing,
                )
                &&& forall|i: int|
                    0 <= i < root.children@.len() ==> first_level_listed(
                        #[trigger] root.children@[i],
                        *list,
                    )
            },
            r matches Err(e) ==> overflow_at(e, "/"@) && exists|cs: Seq<FileNode>|
                #[trigger] media_first_levels(cs, *storage_listing, *list) && (tree_total_seq(cs)
                    > u64::MAX || tree_files_seq(cs) > u64::MAX),
    {
        let roots = Scanner::media_roots(storage_listing);
        let ghost rs = roots@;
        let mut out: Vec<FileNode> = Vec::new();
        for c in it: roots
            invariant
                it.seq() == rs,
                forall|p: &str| list.requires((p,)),
                out@.len() == it.index(),
                forall|k: int|
                    0 <= k < rs.len() ==> (#[trigger] rs[k]).is_dir && rs[k].depth == 1
                        && rs[k].children@.len() == 0 && !rs[k].loaded,
                forall|k: int|
                    0 <= k < out@.len() ==> same_node(rs[k], #[trigger] out@[k])
                        && depths_consistent(out@[k]) && first_level_listed(out@[k], *list),
        {
            let ghost k = it.index() as int;
            assert(c == rs[k]);
            let mut c = c;
            let ghost pre = c;
            let arg = c.path.as_str();
            let answer = list(arg);
            match answer {
                Ok(entries) => {
                    proof {
                        assert(call_ensures(*list, (arg,), Ok::<Vec<RemoteEntry>, AppError>(entries)));
                        assert(listed_by(*list, pre.path@, entries@));
                    }
                    if entries_bytes_fit(&entries) {
                        let ghost es = entries@;
                        Scanner::load_children(&mut c, entries);
                        proof {
                            let made = choose|made: Seq<FileNode>|
                                #![trigger sorted_children(made, false)]
                                made.len() == es.len() && (forall|i: int|
                                    0 <= i < made.len() ==> node_of_entry(
                                        #[trigger] made[i],
                                        es[i],
                                        pre.depth + 1,
                                    )) && children_installed(
                                    pre,
                                    c,
                                    sorted_children(made, false),
                                );
                            let kids = sorted_children(made, false);
                            let p = |x: FileNode| x.depth == pre.depth + 1 && x.children@.len() == 0 && !x.loaded;
                            assert forall|j: int| 0 <= j < made.len() implies p(
                                #[trigger] made[j],
                            ) by {
                                assert(node_of_entry(made[j], es[j], pre.depth + 1));
                            }
                            lemma_sorted_children_all(made, false, p);
                            assert forall|i: int| 0 <= i < c.children@.len() implies (
                            #[trigger] c.children@[i]).depth == c.depth + 1 && depths_consistent(
                                c.children@[i],
                            ) by {
                                assert(p(kids[i]));
                                assert(totals_computed(kids[i], c.children@[i]));
                                if !kids[i].is_dir {
                                    assert(c.children@[i].children == kids[i].children);
                                }
                                assert(c.children@[i].children@.len() == 0);
                            }
                            crate::scanner::tree::lemma_sorted_children_len(made, false);
                            assert forall|i: int|
                                #![trigger sorted_children(made, false)[i]]
                                #![trigger c.children@[i]]
                                0 <= i < c.children@.len() implies same_node(
                                    sorted_children(made, false)[i],
                                    c.children@[i],
                                ) && !c.children@[i].loaded && c.children@[i].children@.len() == 0 by {
                                assert(totals_computed(kids[i], c.children@[i]));
                                assert(p(kids[i]));
                            }
                            assert(made_from(made, es, c.depth + 1, c.children@));
                        }
                    }
                },
                Err(e) => {
                    proof {
                        assert(call_ensures(*list, (arg,), Err::<Vec<RemoteEntry>, AppError>(e)));
                    }
                },
            }
            out.push(c);
        }
        proof {
            assert(rs.map_values(|n: FileNode| n.path@) =~= out@.map_values(|n: FileNode| n.path@));
            assert(rs.map_values(|n: FileNode| n.name@) =~= out@.map_values(|n: FileNode| n.name@));
            assert(rs.map_values(|n: FileNode| n.path@) =~= media_paths(*storage_listing)) by {
                match storage_listing {
                    Ok(o) => {
                        assert(rs =~= seq![rs[0]] + rs.skip(1));
                    },
                    Err(_) => {},
                }
            }
            assert(rs.map_values(|n: FileNode| n.name@) =~= media_labels(*storage_listing)) by {
                match storage_listing {
                    Ok(o) => {
                        assert(rs =~= seq![rs[0]] + rs.skip(1));
                    },
                    Err(_) => {},
                }
            }
        }
        match checked_totals_seq(&out) {
            None => {
                proof {
                    assert(media_first_levels(out@, *storage_listing, *list));
                }
                return Err(totals_overflow("/"));
            },
            Some(_) => {},
        }
        let ghost kids = out@;
        let root = Scanner::media_tree(out);
        proof {
            assert forall|i: int| 0 <= i < root.children@.len() implies (
            #[trigger] root.children@[i]).depth == root.depth + 1 && depths_consistent(
                root.children@[i],
            ) && first_level_listed(root.children@[i], *list) by {
                lemma_totals_keep_shape(kids[i], root.children@[i], 0);
                lemma_totals_computed_shape(kids[i], root.children@[i]);
                lemma_first_level_shape(kids[i], root.children@[i], *list);
            }
            assert(root.children@.map_values(|n: FileNode| n.path@) =~= kids.map_values(
                |n: FileNode| n.path@,
            ));
            assert(root.children@.map_values(|n: FileNode| n.name@) =~= kids.map_values(
                |n: FileNode| n.name@,
            ));
            crate::scanner::tree::lemma_totals_stable_seq(kids, root.children@);
        }
        Ok(root)
    }
}

} // verus!
