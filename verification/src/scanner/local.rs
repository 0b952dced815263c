//! The local (PC-side) file tree, loaded from directory listings.
use vstd::prelude::*;
use crate::adb::client::RemoteEntry;
use crate::error::{AppError, AppResult};
use crate::scanner::tree::{
    children_installed, entries_file_bytes, files_are_leaves, node_of_entry, sort_children,
    sorted_children, totals_computed, tree_files, tree_files_seq, tree_total, tree_total_seq,
    FileNode,
};
use crate::scanner::walk::{
    checked_totals, depths_consistent, entries_bytes_fit, lemma_failure_lifts, lemma_in_tree_self,
    lemma_same_shape_refl, lemma_same_shape_trans, lemma_sorted_children_all,
    lemma_totals_computed_shape, lemma_totals_keep_shape, listed_by, listing_too_big,
    loaded_below, same_node, same_shape, totals_hold, totals_overflow, walk_failure,
};
use crate::text::{append_vec, chars_of, eq_str, owned, string_of};

verus! {

/// Scanner for the local file system.
pub struct LocalScanner;

/// Whether a node is the link to the parent directory.
pub open spec fn is_parent_link(n: FileNode) -> bool {
    n.name@ == ".."@
}

/// The parent links among `cs`, in order.
pub open spec fn parent_links(cs: Seq<FileNode>) -> Seq<FileNode>
    decreases cs.len(),
{
    if cs.len() == 0 {
        seq![]
    } else if is_parent_link(cs.last()) {
        parent_links(cs.drop_last()).push(cs.last())
    } else {
        parent_links(cs.drop_last())
    }
}

/// Number of files among listed entries.
pub open spec fn entries_file_count(es: Seq<RemoteEntry>) -> nat
    decreases es.len(),
{
    if es.len() == 0 {
        0
    } else {
        entries_file_count(es.drop_last()) + if es.last().is_dir {
            0nat
        } else {
            1nat
        }
    }
}

proof fn lemma_parent_links_sub(cs: Seq<FileNode>, p: spec_fn(FileNode) -> bool)
    requires
        forall|j: int| 0 <= j < cs.len() ==> p(#[trigger] cs[j]),
    ensures
        forall|k: int| 0 <= k < parent_links(cs).len() ==> p(#[trigger] parent_links(cs)[k]),
    decreases cs.len(),
{
    if cs.len() > 0 {
        assert forall|j: int| 0 <= j < cs.drop_last().len() implies p(
            #[trigger] cs.drop_last()[j],
        ) by {
            assert(cs.drop_last()[j] == cs[j]);
        }
        lemma_parent_links_sub(cs.drop_last(), p);
        let q = parent_links(cs.drop_last());
        if is_parent_link(cs.last()) {
            assert(p(cs[cs.len() - 1]));
            assert forall|k: int| 0 <= k < q.push(cs.last()).len() implies p(
                #[trigger] q.push(cs.last())[k],
            ) by {
                if k < q.len() {
                    assert(q.push(cs.last())[k] == q[k]);
                }
            }
        }
    }
}

proof fn lemma_entries_file_count_le(es: Seq<RemoteEntry>)
    ensures
        entries_file_count(es) <= es.len(),
    decreases es.len(),
{
    if es.len() > 0 {
        lemma_entries_file_count_le(es.drop_last());
    }
}

/// `made` are the kept `..` links `kept` followed by the nodes made from the
/// listing `es` one level down at `depth`, and `cs` are, up to what happened
/// below them, those nodes in local browser order, a `..` link unchanged.
pub open spec fn made_with_links(
    made: Seq<FileNode>,
    kept: Seq<FileNode>,
    es: Seq<RemoteEntry>,
    depth: int,
    cs: Seq<FileNode>,
) -> bool {
    &&& made.len() == kept.len() + es.len()
    &&& made.take(kept.len() as int) == kept
    &&& forall|i: int|
        0 <= i < es.len() ==> node_of_entry(#[trigger] made[kept.len() + i], es[i], depth)
    &&& cs.len() == made.len()
    &&& forall|i: int|
        0 <= i < cs.len() ==> same_node(#[trigger] sorted_children(made, true)[i], cs[i]) && (
        is_parent_link(cs[i]) ==> same_shape(sorted_children(made, true)[i], cs[i]))
}

/// The children `cs` are the kept `..` links `kept` and the nodes of the
/// listing `es`, in local browser order, up to what happened below them.
pub open spec fn local_children_of_listing(
    cs: Seq<FileNode>,
    kept: Seq<FileNode>,
    es: Seq<RemoteEntry>,
    depth: int,
) -> bool {
    exists|made: Seq<FileNode>| #[trigger] made_with_links(made, kept, es, depth, cs)
}

/// `y` is what a local walk down to depth `max` through `list` makes of a
/// node fresh from a listing: a directory above `max` that is no `..` link
/// is listed and its children walked in turn; anything else stays unlisted
/// and childless.
pub open spec fn local_fresh_walked<F: Fn(&str) -> AppResult<Vec<RemoteEntry>>>(
    y: FileNode,
    max: int,
    list: F,
) -> bool
    decreases y,
{
    if y.depth >= max || !y.is_dir || is_parent_link(y) {
        !y.loaded && y.children@.len() == 0
    } else {
        &&& y.loaded
        &&& exists|es: Seq<RemoteEntry>|
            #[trigger] listed_by(list, y.path@, es) && local_children_of_listing(
                y.children@,
                seq![],
                es,
                y.depth + 1,
            )
        &&& forall|i: int|
            0 <= i < y.children@.len() ==> local_fresh_walked(#[trigger] y.children@[i], max, list)
    }
}

/// `b` is, up to the totals, what a local walk down to depth `max` that
/// lists directories through `list` makes of the tree `a`: like a device
/// walk, except that a listed directory keeps its `..` links and that a
/// `..` link is never walked into.
pub open spec fn local_walked<F: Fn(&str) -> AppResult<Vec<RemoteEntry>>>(
    a: FileNode,
    b: FileNode,
    max: int,
    list: F,
) -> bool
    decreases a,
{
    if a.depth >= max {
        same_shape(a, b)
    } else {
        &&& same_node(a, b)
        &&& b.loaded == (a.loaded || a.is_dir)
        &&& if a.is_dir && !a.loaded {
            &&& exists|es: Seq<RemoteEntry>|
                #[trigger] listed_by(list, a.path@, es) && local_children_of_listing(
                    b.children@,
                    parent_links(a.children@),
                    es,
                    a.depth + 1,
                )
            &&& forall|i: int|
                0 <= i < b.children@.len() && !is_parent_link(b.children@[i])
                    ==> local_fresh_walked(#[trigger] b.children@[i], max, list)
        } else {
            &&& b.children@.len() == a.children@.len()
            &&& forall|i: int|
                0 <= i < a.children@.len() ==> if (#[trigger] a.children@[i]).is_dir
                    && !is_parent_link(a.children@[i]) {
                    local_walked(a.children@[i], b.children@[i], max, list)
                } else {
                    same_shape(a.children@[i], b.children@[i])
                }
        }
    }
}

proof fn lemma_links_shape(
    made: Seq<FileNode>,
    kept: Seq<FileNode>,
    es: Seq<RemoteEntry>,
    depth: int,
    cs: Seq<FileNode>,
    ds: Seq<FileNode>,
)
    requires
        made_with_links(made, kept, es, depth, cs),
        ds.len() == cs.len(),
        forall|i: int| 0 <= i < cs.len() ==> same_shape(#[trigger] cs[i], ds[i]),
    ensures
        made_with_links(made, kept, es, depth, ds),
{
    assert forall|i: int| 0 <= i < ds.len() implies same_node(
        #[trigger] sorted_children(made, true)[i],
        ds[i],
    ) && (is_parent_link(ds[i]) ==> same_shape(sorted_children(made, true)[i], ds[i])) by {
        assert(same_shape(cs[i], ds[i]));
        if is_parent_link(ds[i]) {
            lemma_same_shape_trans(sorted_children(made, true)[i], cs[i], ds[i]);
        }
    }
}

proof fn lemma_local_fresh_shape<F: Fn(&str) -> AppResult<Vec<RemoteEntry>>>(
    y: FileNode,
    z: FileNode,
    max: int,
    list: F,
)
    requires
        local_fresh_walked(y, max, list),
        same_shape(y, z),
    ensures
        local_fresh_walked(z, max, list),
    decreases y,
{
    if y.depth >= max || !y.is_dir || is_parent_link(y) {
    } else {
        let es = choose|es: Seq<RemoteEntry>|
            #[trigger] listed_by(list, y.path@, es) && local_children_of_listing(
                y.children@,
                seq![],
                es,
                y.depth + 1,
            );
        let made = choose|made: Seq<FileNode>|
            #[trigger] made_with_links(made, seq![], es, y.depth + 1, y.children@);
        assert forall|i: int| 0 <= i < y.children@.len() implies same_shape(
            #[trigger] y.children@[i],
            z.children@[i],
        ) by {}
        lemma_links_shape(made, seq![], es, y.depth + 1, y.children@, z.children@);
        assert(listed_by(list, z.path@, es));
        assert forall|i: int| 0 <= i < z.children@.len() implies local_fresh_walked(
            #[trigger] z.children@[i],
            max,
            list,
        ) by {
            lemma_local_fresh_shape(y.children@[i], z.children@[i], max, list);
        }
    }
}

proof fn lemma_local_walked_shape<F: Fn(&str) -> AppResult<Vec<RemoteEntry>>>(
    a: FileNode,
    b: FileNode,
    c: FileNode,
    max: int,
    list: F,
)
    requires
        local_walked(a, b, max, list),
        same_shape(b, c),
    ensures
        local_walked(a, c, max, list),
    decreases a,
{
    if a.depth >= max {
        lemma_same_shape_trans(a, b, c);
    } else if a.is_dir && !a.loaded {
        let kept = parent_links(a.children@);
        let es = choose|es: Seq<RemoteEntry>|
            #[trigger] listed_by(list, a.path@, es) && local_children_of_listing(
                b.children@,
                kept,
                es,
                a.depth + 1,
            );
        let made = choose|made: Seq<FileNode>|
            #[trigger] made_with_links(made, kept, es, a.depth + 1, b.children@);
        assert forall|i: int| 0 <= i < b.children@.len() implies same_shape(
            #[trigger] b.children@[i],
            c.children@[i],
        ) by {}
        lemma_links_shape(made, kept, es, a.depth + 1, b.children@, c.children@);
        assert forall|i: int|
            0 <= i < c.children@.len() && !is_parent_link(c.children@[i]) implies local_fresh_walked(
            #[trigger] c.children@[i],
            max,
            list,
        ) by {
            assert(same_shape(b.children@[i], c.children@[i]));
            lemma_local_fresh_shape(b.children@[i], c.children@[i], max, list);
        }
    } else {
        assert forall|i: int| 0 <= i < a.children@.len() implies if (
        #[trigger] a.children@[i]).is_dir && !is_parent_link(a.children@[i]) {
            local_walked(a.children@[i], c.children@[i], max, list)
        } else {
            same_shape(a.children@[i], c.children@[i])
        } by {
            assert(same_shape(b.children@[i], c.children@[i]));
            if a.children@[i].is_dir && !is_parent_link(a.children@[i]) {
                lemma_local_walked_shape(a.children@[i], b.children@[i], c.children@[i], max, list);
            } else {
                lemma_same_shape_trans(a.children@[i], b.children@[i], c.children@[i]);
            }
        }
    }
}

proof fn lemma_local_walked_fresh<F: Fn(&str) -> AppResult<Vec<RemoteEntry>>>(
    x: FileNode,
    y: FileNode,
    max: int,
    list: F,
)
    requires
        x.children@.len() == 0,
        !x.loaded,
        x.is_dir && !is_parent_link(x) ==> local_walked(x, y, max, list),
        !(x.is_dir && !is_parent_link(x)) ==> same_shape(x, y),
    ensures
        local_fresh_walked(y, max, list),
{
    if x.depth < max && x.is_dir && !is_parent_link(x) {
        let kept = parent_links(x.children@);
        assert(kept =~= seq![]);
        let es = choose|es: Seq<RemoteEntry>|
            #[trigger] listed_by(list, x.path@, es) && local_children_of_listing(
                y.children@,
                kept,
                es,
                x.depth + 1,
            );
        let made = choose|made: Seq<FileNode>|
            #[trigger] made_with_links(made, kept, es, x.depth + 1, y.children@);
        let p = |n: FileNode| n.children@.len() == 0 && !n.loaded;
        assert forall|j: int| 0 <= j < made.len() implies p(#[trigger] made[j]) by {
            assert(node_of_entry(made[kept.len() + j], es[j], x.depth + 1));
        }
        lemma_sorted_children_all(made, true, p);
        crate::scanner::tree::lemma_sorted_children_len(made, true);
        assert forall|i: int| 0 <= i < y.children@.len() implies local_fresh_walked(
            #[trigger] y.children@[i],
            max,
            list,
        ) by {
            if is_parent_link(y.children@[i]) {
                assert(p(sorted_children(made, true)[i]));
                assert(same_shape(sorted_children(made, true)[i], y.children@[i]));
            }
        }
        assert(made_with_links(made, seq![], es, y.depth + 1, y.children@));
        assert(listed_by(list, y.path@, es));
    }
}

/// `b` is what a local walk down to depth `max` through `list` that stopped
/// part way may have made of the tree `a`: as in [`local_walked`], except
/// that a directory whose children were never listed may still be as it was,
/// and that the walk of a subtree may itself have stopped part way.
pub open spec fn local_partly_walked<F: Fn(&str) -> AppResult<Vec<RemoteEntry>>>(
    a: FileNode,
    b: FileNode,
    max: int,
    list: F,
) -> bool
    decreases a,
{
    if a.depth >= max {
        same_shape(a, b)
    } else if a.is_dir && !a.loaded {
        ||| b == a
        ||| {
            &&& same_node(a, b)
            &&& b.loaded
            &&& exists|es: Seq<RemoteEntry>|
                #[trigger] listed_by(list, a.path@, es) && local_children_of_listing(
                    b.children@,
                    parent_links(a.children@),
                    es,
                    a.depth + 1,
                )
            &&& forall|i: int|
                0 <= i < b.children@.len() && !is_parent_link(b.children@[i])
                    ==> local_fresh_partly_walked(#[trigger] b.children@[i], max, list)
        }
    } else {
        &&& same_node(a, b)
        &&& b.loaded == a.loaded
        &&& b.children@.len() == a.children@.len()
        &&& forall|i: int|
            0 <= i < a.children@.len() ==> if (#[trigger] a.children@[i]).is_dir
                && !is_parent_link(a.children@[i]) {
                local_partly_walked(a.children@[i], b.children@[i], max, list)
            } else {
                same_shape(a.children@[i], b.children@[i])
            }
    }
}

/// `y` is what a local walk that stopped part way may have made of a node
/// fresh from a listing: left unlisted and childless, or listed through
/// `list` with its children in turn walked part way.
pub open spec fn local_fresh_partly_walked<F: Fn(&str) -> AppResult<Vec<RemoteEntry>>>(
    y: FileNode,
    max: int,
    list: F,
) -> bool
    decreases y,
{
    if y.depth >= max || !y.is_dir || is_parent_link(y) || !y.loaded {
        !y.loaded && y.children@.len() == 0
    } else {
        &&& exists|es: Seq<RemoteEntry>|
            #[trigger] listed_by(list, y.path@, es) && local_children_of_listing(
                y.children@,
                seq![],
                es,
                y.depth + 1,
            )
        &&& forall|i: int|
            0 <= i < y.children@.len() ==> local_fresh_partly_walked(
                #[trigger] y.children@[i],
                max,
                list,
            )
    }
}

proof fn lemma_local_partly_refl<F: Fn(&str) -> AppResult<Vec<RemoteEntry>>>(
    a: FileNode,
    max: int,
    list: F,
)
    ensures
        local_partly_walked(a, a, max, list),
    decreases a,
{
    if a.depth >= max {
        lemma_same_shape_refl(a);
    } else if !(a.is_dir && !a.loaded) {
        assert forall|i: int| 0 <= i < a.children@.len() implies if (
        #[trigger] a.children@[i]).is_dir && !is_parent_link(a.children@[i]) {
            local_partly_walked(a.children@[i], a.children@[i], max, list)
        } else {
            same_shape(a.children@[i], a.children@[i])
        } by {
            if a.children@[i].is_dir && !is_parent_link(a.children@[i]) {
                lemma_local_partly_refl(a.children@[i], max, list);
            } else {
                lemma_same_shape_refl(a.children@[i]);
            }
        }
    }
}

proof fn lemma_local_fresh_partly<F: Fn(&str) -> AppResult<Vec<RemoteEntry>>>(
    y: FileNode,
    max: int,
    list: F,
)
    requires
        local_fresh_walked(y, max, list),
    ensures
        local_fresh_partly_walked(y, max, list),
    decreases y,
{
    if !(y.depth >= max || !y.is_dir || is_parent_link(y)) {
        assert forall|i: int| 0 <= i < y.children@.len() implies local_fresh_partly_walked(
            #[trigger] y.children@[i],
            max,
            list,
        ) by {
            lemma_local_fresh_partly(y.children@[i], max, list);
        }
    }
}

proof fn lemma_local_walked_partly<F: Fn(&str) -> AppResult<Vec<RemoteEntry>>>(
    a: FileNode,
    b: FileNode,
    max: int,
    list: F,
)
    requires
        local_walked(a, b, max, list),
    ensures
        local_partly_walked(a, b, max, list),
    decreases a,
{
    if a.depth >= max {
    } else if a.is_dir && !a.loaded {
        assert forall|i: int|
            0 <= i < b.children@.len() && !is_parent_link(b.children@[i]) implies local_fresh_partly_walked(
            #[trigger] b.children@[i],
            max,
            list,
        ) by {
            lemma_local_fresh_partly(b.children@[i], max, list);
        }
    } else {
        assert forall|i: int| 0 <= i < a.children@.len() implies if (
        #[trigger] a.children@[i]).is_dir && !is_parent_link(a.children@[i]) {
            local_partly_walked(a.children@[i], b.children@[i], max, list)
        } else {
            same_shape(a.children@[i], b.children@[i])
        } by {
            if a.children@[i].is_dir && !is_parent_link(a.children@[i]) {
                lemma_local_walked_partly(a.children@[i], b.children@[i], max, list);
            }
        }
    }
}

proof fn lemma_local_partly_same_node<F: Fn(&str) -> AppResult<Vec<RemoteEntry>>>(
    a: FileNode,
    b: FileNode,
    max: int,
    list: F,
)
    requires
        local_partly_walked(a, b, max, list),
    ensures
        same_node(a, b),
{
}

proof fn lemma_local_partly_fresh<F: Fn(&str) -> AppResult<Vec<RemoteEntry>>>(
    x: FileNode,
    y: FileNode,
    max: int,
    list: F,
)
    requires
        x.children@.len() == 0,
        !x.loaded,
        x.is_dir && !is_parent_link(x) ==> local_partly_walked(x, y, max, list),
        !(x.is_dir && !is_parent_link(x)) ==> same_shape(x, y),
    ensures
        local_fresh_partly_walked(y, max, list),
{
    if x.depth < max && x.is_dir && !is_parent_link(x) && y != x {
        let kept = parent_links(x.children@);
        assert(kept =~= seq![]);
        let es = choose|es: Seq<RemoteEntry>|
            #[trigger] listed_by(list, x.path@, es) && local_children_of_listing(
                y.children@,
                kept,
                es,
                x.depth + 1,
            );
        let made = choose|made: Seq<FileNode>|
            #[trigger] made_with_links(made, kept, es, x.depth + 1, y.children@);
        let p = |n: FileNode| n.children@.len() == 0 && !n.loaded;
        assert forall|j: int| 0 <= j < made.len() implies p(#[trigger] made[j]) by {
            assert(node_of_entry(made[kept.len() + j], es[j], x.depth + 1));
        }
        lemma_sorted_children_all(made, true, p);
        crate::scanner::tree::lemma_sorted_children_len(made, true);
        assert forall|i: int| 0 <= i < y.children@.len() implies local_fresh_partly_walked(
            #[trigger] y.children@[i],
            max,
            list,
        ) by {
            if is_parent_link(y.children@[i]) {
                assert(p(sorted_children(made, true)[i]));
                assert(same_shape(sorted_children(made, true)[i], y.children@[i]));
            }
        }
        assert(made_with_links(made, seq![], es, y.depth + 1, y.children@));
        assert(listed_by(list, y.path@, es));
    }
}

/// Walking a local tree that is already loaded down to the depth changes
/// nothing but the totals: no listed directory is listed again, and no `..`
/// link is entered.
pub proof fn lemma_local_walk_of_loaded_tree<F: Fn(&str) -> AppResult<Vec<RemoteEntry>>>(
    a: FileNode,
    b: FileNode,
    max: int,
    list: F,
)
    requires
        files_are_leaves(a),
        !is_parent_link(a),
        local_loaded_below(a, max),
        local_walked(a, b, max, list),
    ensures
        same_shape(a, b),
    decreases a,
{
    if a.depth < max {
        assert forall|i: int| 0 <= i < a.children@.len() implies same_shape(
            #[trigger] a.children@[i],
            b.children@[i],
        ) by {
            let c = a.children@[i];
            if c.is_dir && !is_parent_link(c) {
                assert(local_loaded_below(c, max));
                lemma_local_walk_of_loaded_tree(c, b.children@[i], max, list);
            }
        }
    }
}

impl LocalScanner {
    /// Installs the listed `entries` as the children of a directory node that
    /// has not been loaded yet. A `..` child already present is kept; every
    /// entry becomes a fresh node one level down; the children are sorted
    /// with `..` first, then directories, then by lower-cased name, and the
    /// totals are recomputed. Files and loaded directories are left as they are.
    pub fn load_children(node: &mut FileNode, entries: Vec<RemoteEntry>)
        requires
            old(node).is_dir && !old(node).loaded ==> {
                &&& old(node).depth < usize::MAX
                &&& tree_total_seq(parent_links(old(node).children@)) + entries_file_bytes(
                    entries@,
                ) <= u64::MAX
                &&& tree_files_seq(parent_links(old(node).children@)) + entries@.len()
                    <= u64::MAX
            },
        ensures
            !old(node).is_dir || old(node).loaded ==> *final(node) == *old(node),
            old(node).is_dir && !old(node).loaded ==> exists|made: Seq<FileNode>|
                #![trigger sorted_children(made, true)]
                {
                    let kept = parent_links(old(node).children@);
                    &&& made.len() == kept.len() + entries@.len()
                    &&& made.take(kept.len() as int) == kept
                    &&& forall|i: int|
                        0 <= i < entries@.len() ==> node_of_entry(
                            #[trigger] made[kept.len() + i],
                            entries@[i],
                            old(node).depth + 1,
                        )
                    &&& children_installed(*old(node), *final(node), sorted_children(made, true))
                },
    {
        if !node.is_dir || node.loaded {
            return;
        }
        let depth = node.depth + 1;
        let ghost pre = *node;
        let mut cs: Vec<FileNode> = Vec::new();
        std::mem::swap(&mut cs, &mut node.children);
        let ghost old_cs = cs@;
        let mut made: Vec<FileNode> = Vec::new();
        for c in it: cs
            invariant
                it.seq() == old_cs,
                made@ == parent_links(old_cs.take(it.index() as int)),
        {
            let ghost k = it.index() as int;
            proof {
                assert(old_cs.take(k + 1).drop_last() =~= old_cs.take(k));
                assert(old_cs.take(k + 1).last() == c);
            }
            if eq_str(&chars_of(c.name.as_str()), "..") {
                made.push(c);
            }
        }
        proof {
            assert(old_cs.take(old_cs.len() as int) =~= old_cs);
        }
        let ghost kept = made@;
        let mut i: usize = 0;
        while i < entries.len()
            invariant
                kept == parent_links(pre.children@),
                depth == pre.depth + 1,
                i <= entries@.len(),
                made@.len() == kept.len() + i,
                made@.take(kept.len() as int) == kept,
                forall|k: int|
                    0 <= k < i ==> node_of_entry(
                        #[trigger] made@[kept.len() + k],
                        entries@[k],
                        depth as int,
                    ),
                tree_total_seq(made@) == tree_total_seq(kept) + entries_file_bytes(
                    entries@.take(i as int),
                ),
                tree_files_seq(made@) == tree_files_seq(kept) + entries_file_count(
                    entries@.take(i as int),
                ),
            decreases entries@.len() - i,
        {
            let n = FileNode::from_entry(&entries[i], depth);
            let ghost before = made@;
            made.push(n);
            proof {
                assert(made@.drop_last() =~= before);
                assert(made@.take(kept.len() as int) =~= before.take(kept.len() as int));
                assert(entries@.take(i + 1).drop_last() =~= entries@.take(i as int));
                assert(tree_total(n) == if n.is_dir {
                    0nat
                } else {
                    n.size as nat
                }) by {
                    if n.is_dir {
                        assert(n.children@ =~= Seq::<FileNode>::empty());
                    }
                }
                assert(tree_files(n) == if n.is_dir {
                    0nat
                } else {
                    1nat
                }) by {
                    if n.is_dir {
                        assert(n.children@ =~= Seq::<FileNode>::empty());
                    }
                }
            }
            i = i + 1;
        }
        proof {
            assert(entries@.take(i as int) =~= entries@);
            lemma_entries_file_count_le(entries@);
        }
        let ghost made_v = made@;
        let sorted = sort_children(made, true);
        proof {
            crate::scanner::tree::lemma_sorted_children_sums(made_v, true);
        }
        node.children = sorted;
        node.loaded = true;
        node.compute_totals();
        proof {
            crate::scanner::tree::lemma_sorted_children_len(made_v, true);
            let kids = sorted_children(made_v, true);
            assert(children_installed(pre, *node, kids));
            assert(made_v.len() == kept.len() + entries@.len());
            assert(forall|k: int|
                0 <= k < entries@.len() ==> node_of_entry(
                    #[trigger] made_v[kept.len() + k],
                    entries@[k],
                    pre.depth + 1,
                ));
        }
    }

    /// Loads the local tree below `node` down to `max_depth`, asking `list`
    /// for the entries of every directory that has not been loaded yet; the
    /// `..` link is never descended into.
    ///
    /// The first failure of `list` stops the walk and is returned; the nodes
    /// loaded so far stay loaded. When the sizes listed below a directory do
    /// not fit in 64 bits the walk stops with a protocol error naming it.
    pub fn load_recursive<F: Fn(&str) -> AppResult<Vec<RemoteEntry>>>(
        node: &mut FileNode,
        max_depth: usize,
        list: &F,
    ) -> (r: AppResult<()>)
        requires
            forall|p: &str| list.requires((p,)),
            depths_consistent(*old(node)),
        ensures
            depths_consistent(*final(node)),
            same_node(*old(node), *final(node)),
            old(node).depth >= max_depth ==> *final(node) == *old(node) && r is Ok,
            r is Ok ==> local_walked(*old(node), *final(node), max_depth as int, *list),
            r is Ok && old(node).depth < max_depth ==> local_loaded_below(
                *final(node),
                max_depth as int,
            ) && totals_hold(*final(node)),
            r is Err ==> local_partly_walked(*old(node), *final(node), max_depth as int, *list),
            r matches Err(e) ==> walk_failure(*final(node), *list, e, true),
        decreases max_depth - old(node).depth,
    {
        if node.depth >= max_depth {
            proof {
                lemma_same_shape_refl(*node);
            }
            return Ok(());
        }
        let ghost pre = *node;
        let ghost mut made: Seq<FileNode> = Seq::empty();
        let ghost mut es: Seq<RemoteEntry> = Seq::empty();
        if node.is_dir && !node.loaded {
            let arg = node.path.as_str();
            let answer = list(arg);
            let entries = match answer {
                Ok(es) => es,
                Err(e) => {
                    proof {
                        assert(call_ensures(*list, (arg,), Err::<Vec<RemoteEntry>, AppError>(e)));
                        lemma_in_tree_self(*node);
                        lemma_local_partly_refl(*node, max_depth as int, *list);
                    }
                    return Err(e);
                },
            };
            proof {
                assert(call_ensures(*list, (arg,), Ok::<Vec<RemoteEntry>, AppError>(entries)));
                assert(listed_by(*list, pre.path@, entries@));
            }
            if !entries_bytes_fit(&entries) || !LocalScanner::listing_fits(&node.children, &entries) {
                let e = totals_overflow(node.path.as_str());
                proof {
                    lemma_in_tree_self(*node);
                    lemma_local_partly_refl(*node, max_depth as int, *list);
                    assert(listed_by(*list, node.path@, entries@));
                    assert(listing_too_big(*node, entries@, true));
                }
                return Err(e);
            }
            proof {
                es = entries@;
            }
            LocalScanner::load_children(node, entries);
            proof {
                let kept = parent_links(pre.children@);
                made = choose|made: Seq<FileNode>|
                    #![trigger sorted_children(made, true)]
                    {
                        &&& made.len() == kept.len() + es.len()
                        &&& made.take(kept.len() as int) == kept
                        &&& forall|i: int|
                            0 <= i < es.len() ==> node_of_entry(
                                #[trigger] made[kept.len() + i],
                                es[i],
                                pre.depth + 1,
                            )
                        &&& children_installed(pre, *node, sorted_children(made, true))
                    };
                let kids = sorted_children(made, true);
                crate::scanner::tree::lemma_sorted_children_len(made, true);
                let p = |x: FileNode| x.depth == pre.depth + 1 && depths_consistent(x);
                assert forall|j: int| 0 <= j < pre.children@.len() implies p(
                    #[trigger] pre.children@[j],
                ) by {
                    assert(pre.children@[j].depth == pre.depth + 1);
                }
                lemma_parent_links_sub(pre.children@, p);
                lemma_parent_links_are_links(pre.children@);
                let q = |x: FileNode| is_parent_link(x) || (x.children@.len() == 0 && !x.loaded);
                assert forall|j: int| 0 <= j < made.len() implies p(#[trigger] made[j]) && q(
                    made[j],
                ) by {
                    if j < kept.len() {
                        assert(made[j] == made.take(kept.len() as int)[j]);
                        assert(p(kept[j]));
                        assert(is_parent_link(kept[j]));
                    } else {
                        let e = j - kept.len();
                        assert(node_of_entry(made[kept.len() + e], es[e], pre.depth + 1));
                        assert(made[j].children@.len() == 0);
                    }
                }
                lemma_sorted_children_all(made, true, p);
                lemma_sorted_children_all(made, true, q);
                assert forall|i: int| 0 <= i < node.children@.len() implies (
                #[trigger] node.children@[i]).depth == node.depth + 1 && depths_consistent(
                    node.children@[i],
                ) && q(node.children@[i]) && same_shape(kids[i], node.children@[i]) by {
                    assert(p(kids[i]));
                    assert(q(kids[i]));
                    assert(totals_computed(kids[i], node.children@[i]));
                    lemma_totals_keep_shape(kids[i], node.children@[i], 0);
                    lemma_totals_computed_shape(kids[i], node.children@[i]);
                }
            }
        }
        let ghost mid = *node;
        let mut cs: Vec<FileNode> = Vec::new();
        std::mem::swap(&mut cs, &mut node.children);
        let ghost old_cs = cs@;
        let mut out: Vec<FileNode> = Vec::new();
        let mut failure: Option<crate::error::AppError> = None;
        for c in it: cs
            invariant
                it.seq() == old_cs,
                old_cs == mid.children@,
                forall|p: &str| list.requires((p,)),
                depths_consistent(mid),
                mid.depth < max_depth,
                mid.depth == old(node).depth,
                out@.len() == it.index(),
                forall|k: int|
                    0 <= k < out@.len() ==> (#[trigger] out@[k]).depth == mid.depth + 1
                        && depths_consistent(out@[k]),
                failure is None ==> forall|k: int|
                    0 <= k < out@.len() ==> local_loaded_below(
                        #[trigger] out@[k],
                        max_depth as int,
                    ),
                failure is None ==> forall|k: int|
                    0 <= k < out@.len() ==> if old_cs[k].is_dir && !is_parent_link(old_cs[k]) {
                        local_walked(old_cs[k], #[trigger] out@[k], max_depth as int, *list)
                    } else {
                        out@[k] == old_cs[k]
                    },
                failure matches Some(e) ==> exists|j: int|
                    0 <= j < out@.len() && walk_failure(#[trigger] out@[j], *list, e, true),
                forall|j: int|
                    0 <= j < out@.len() ==> if old_cs[j].is_dir && !is_parent_link(old_cs[j]) {
                        local_partly_walked(old_cs[j], #[trigger] out@[j], max_depth as int, *list)
                    } else {
                        out@[j] == old_cs[j]
                    },
        {
            let ghost k = it.index() as int;
            assert(c == old_cs[k]);
            assert(mid.children@[k].depth == mid.depth + 1 && depths_consistent(mid.children@[k]));
            let ghost before_out = out@;
            let ghost before_failure = failure;
            let mut c = c;
            proof {
                reveal_strlit("..");
            }
            if failure.is_none() && c.is_dir && !eq_str(&chars_of(c.name.as_str()), "..") {
                match LocalScanner::load_recursive(&mut c, max_depth, list) {
                    Ok(()) => {
                        proof {
                            lemma_local_walked_partly(old_cs[k], c, max_depth as int, *list);
                        }
                    },
                    Err(e) => {
                        failure = Some(e);
                    },
                }
            } else {
                proof {
                    if c.is_dir && !is_parent_link(c) {
                        lemma_local_partly_refl(c, max_depth as int, *list);
                    }
                }
            }
            out.push(c);
            proof {
                assert(out@[k] == c);
                assert forall|j: int| 0 <= j < k implies out@[j] == before_out[j] by {}
                if let Some(e0) = before_failure {
                    let j0 = choose|j: int|
                        0 <= j < before_out.len() && walk_failure(#[trigger] before_out[j], *list, e0, true);
                    assert(out@[j0] == before_out[j0]);
                }
            }
        }
        node.children = out;
        let ghost m = max_depth as int;
        match failure {
            Some(e) => {
                proof {
                    let j0 = choose|j: int|
                        0 <= j < out@.len() && walk_failure(#[trigger] out@[j], *list, e, true);
                    assert(node.children@[j0] == out@[j0]);
                    lemma_failure_lifts(*node, j0, *list, e, true);
                    let cur = *node;
                    if pre.is_dir && !pre.loaded {
                        let kept = parent_links(pre.children@);
                        let kids = sorted_children(made, true);
                        assert forall|i: int|
                            #![trigger sorted_children(made, true)[i]]
                            #![trigger cur.children@[i]]
                            0 <= i < cur.children@.len() implies same_node(
                                sorted_children(made, true)[i],
                                cur.children@[i],
                            ) && (is_parent_link(cur.children@[i]) ==> same_shape(
                                sorted_children(made, true)[i],
                                cur.children@[i],
                            )) && (!is_parent_link(cur.children@[i]) ==> local_fresh_partly_walked(
                                cur.children@[i],
                                m,
                                *list,
                            )) by {
                            let x = old_cs[i];
                            let y = cur.children@[i];
                            assert(same_shape(kids[i], x));
                            if x.is_dir && !is_parent_link(x) {
                                lemma_local_partly_same_node(x, y, m, *list);
                                lemma_local_partly_fresh(x, y, m, *list);
                            } else {
                                lemma_same_shape_refl(x);
                                if !is_parent_link(x) {
                                    lemma_local_partly_fresh(x, y, m, *list);
                                }
                            }
                        }
                        assert(made_with_links(made, kept, es, pre.depth + 1, cur.children@));
                        assert(listed_by(*list, pre.path@, es));
                    } else {
                        assert forall|i: int| 0 <= i < pre.children@.len() implies (if (
                        #[trigger] pre.children@[i]).is_dir && !is_parent_link(pre.children@[i]) {
                            local_partly_walked(pre.children@[i], cur.children@[i], m, *list)
                        } else {
                            same_shape(pre.children@[i], cur.children@[i])
                        }) by {
                            assert(old_cs[i] == pre.children@[i]);
                            if !(old_cs[i].is_dir && !is_parent_link(old_cs[i])) {
                                lemma_same_shape_refl(old_cs[i]);
                            }
                        }
                    }
                }
                return Err(e);
            },
            None => {},
        }
        proof {
            let cur = *node;
            assert forall|i: int| 0 <= i < old_cs.len() implies (if (#[trigger] old_cs[i]).is_dir
                && !is_parent_link(old_cs[i]) {
                local_walked(old_cs[i], cur.children@[i], m, *list)
            } else {
                same_shape(old_cs[i], cur.children@[i])
            }) by {
                if !(old_cs[i].is_dir && !is_parent_link(old_cs[i])) {
                    lemma_same_shape_refl(old_cs[i]);
                }
            }
            if pre.is_dir && !pre.loaded {
                let kept = parent_links(pre.children@);
                let kids = sorted_children(made, true);
                assert forall|i: int|
                    #![trigger sorted_children(made, true)[i]]
                    #![trigger cur.children@[i]]
                    0 <= i < cur.children@.len() implies same_node(
                        sorted_children(made, true)[i],
                        cur.children@[i],
                    ) && (is_parent_link(cur.children@[i]) ==> same_shape(
                        sorted_children(made, true)[i],
                        cur.children@[i],
                    )) && (!is_parent_link(cur.children@[i]) ==> local_fresh_walked(
                        cur.children@[i],
                        m,
                        *list,
                    )) by {
                    let x = old_cs[i];
                    let y = cur.children@[i];
                    assert(same_shape(kids[i], x));
                    if x.is_dir && !is_parent_link(x) {
                        lemma_local_walked_same_node(x, y, m, *list);
                        lemma_local_walked_fresh(x, y, m, *list);
                    } else {
                        lemma_same_shape_refl(x);
                        if !is_parent_link(x) {
                            lemma_local_walked_fresh(x, y, m, *list);
                        }
                    }
                }
                assert(made_with_links(made, kept, es, pre.depth + 1, cur.children@));
                assert(listed_by(*list, pre.path@, es));
            }
            assert(local_walked(pre, cur, m, *list));
        }
        match checked_totals(node) {
            None => {
                let e = totals_overflow(node.path.as_str());
                proof {
                    lemma_in_tree_self(*node);
                    lemma_local_walked_partly(pre, *node, m, *list);
                }
                return Err(e);
            },
            Some(_) => {},
        }
        let ghost before_totals = *node;
        assert(local_loaded_below(before_totals, max_depth as int));
        node.compute_totals();
        proof {
            lemma_totals_keep_shape(before_totals, *node, max_depth as int);
            lemma_totals_keep_local(before_totals, *node, max_depth as int);
            crate::scanner::tree::lemma_totals_stable(before_totals, *node);
            lemma_totals_computed_shape(before_totals, *node);
            lemma_local_walked_shape(pre, before_totals, *node, m, *list);
        }
        Ok(())
    }
}

proof fn lemma_parent_links_are_links(cs: Seq<FileNode>)
    ensures
        forall|k: int|
            0 <= k < parent_links(cs).len() ==> is_parent_link(#[trigger] parent_links(cs)[k]),
    decreases cs.len(),
{
    if cs.len() > 0 {
        lemma_parent_links_are_links(cs.drop_last());
        let q = parent_links(cs.drop_last());
        if is_parent_link(cs.last()) {
            assert forall|k: int| 0 <= k < q.push(cs.last()).len() implies is_parent_link(
                #[trigger] q.push(cs.last())[k],
            ) by {
                if k < q.len() {
                    assert(q.push(cs.last())[k] == q[k]);
                }
            }
        }
    }
}

/// A local walk keeps the fields that describe each node.
proof fn lemma_local_walked_same_node<F: Fn(&str) -> AppResult<Vec<RemoteEntry>>>(
    a: FileNode,
    b: FileNode,
    max: int,
    list: F,
)
    requires
        local_walked(a, b, max, list),
    ensures
        same_node(a, b),
{
}

/// Every directory above depth `max_depth`, other than a `..` link, has had
/// its children loaded.
pub open spec fn local_loaded_below(n: FileNode, max_depth: int) -> bool
    decreases n,
{
    n.depth < max_depth && n.is_dir && !is_parent_link(n) ==> {
        &&& n.loaded
        &&& forall|i: int|
            0 <= i < n.children@.len() ==> local_loaded_below(#[trigger] n.children@[i], max_depth)
    }
}

proof fn lemma_totals_keep_local(a: FileNode, b: FileNode, m: int)
    requires
        totals_computed(a, b),
    ensures
        local_loaded_below(a, m) ==> local_loaded_below(b, m),
    decreases a,
{
    if a.is_dir {
        assert forall|i: int| 0 <= i < b.children@.len() implies (local_loaded_below(a, m)
            && a.depth < m && !is_parent_link(a) ==> local_loaded_below(
            #[trigger] b.children@[i],
            m,
        )) by {
            assert(totals_computed(a.children@[i], b.children@[i]));
            lemma_totals_keep_local(a.children@[i], b.children@[i], m);
        }
    }
}

proof fn lemma_parent_links_prefix(cs: Seq<FileNode>, i: int)
    requires
        0 <= i <= cs.len(),
    ensures
        tree_total_seq(parent_links(cs.take(i))) <= tree_total_seq(parent_links(cs)),
        tree_files_seq(parent_links(cs.take(i))) <= tree_files_seq(parent_links(cs)),
    decreases cs.len(),
{
    if i < cs.len() {
        assert(cs.drop_last().take(i) =~= cs.take(i));
        lemma_parent_links_prefix(cs.drop_last(), i);
        let q = parent_links(cs.drop_last());
        if is_parent_link(cs.last()) {
            assert(q.push(cs.last()).drop_last() =~= q);
        }
    } else {
        assert(cs.take(i) =~= cs);
    }
}

proof fn lemma_entries_prefix(es: Seq<RemoteEntry>, i: int)
    requires
        0 <= i <= es.len(),
    ensures
        entries_file_bytes(es.take(i)) <= entries_file_bytes(es),
    decreases es.len(),
{
    if i < es.len() {
        assert(es.drop_last().take(i) =~= es.take(i));
        lemma_entries_prefix(es.drop_last(), i);
    } else {
        assert(es.take(i) =~= es);
    }
}

impl LocalScanner {
    /// Whether the `..` links among `children` and the listed `entries` fit
    /// together in the 64-bit totals (the condition of [`LocalScanner::load_children`]).
    pub fn listing_fits(children: &Vec<FileNode>, entries: &Vec<RemoteEntry>) -> (b: bool)
        ensures
            b == (tree_total_seq(parent_links(children@)) + entries_file_bytes(entries@) <= u64::MAX
                && tree_files_seq(parent_links(children@)) + entries@.len() <= u64::MAX),
    {
        let ghost cs = children@;
        let mut t: u64 = 0;
        let mut f: u64 = 0;
        let mut i: usize = 0;
        while i < children.len()
            invariant
                cs == children@,
                i <= cs.len(),
                t == tree_total_seq(parent_links(cs.take(i as int))),
                f == tree_files_seq(parent_links(cs.take(i as int))),
            decreases cs.len() - i,
        {
            proof {
                assert(cs.take(i + 1).drop_last() =~= cs.take(i as int));
                assert(cs.take(i + 1).last() == cs[i as int]);
            }
            let ghost prev = parent_links(cs.take(i as int));
            proof {
                assert(prev.push(cs[i as int]).drop_last() =~= prev);
                lemma_parent_links_prefix(cs, i + 1);
            }
            if eq_str(&chars_of(children[i].name.as_str()), "..") {
                match checked_totals(&children[i]) {
                    None => {
                        return false;
                    },
                    Some(p) => {
                        let (ct, cf) = p;
                        if t > u64::MAX - ct || f > u64::MAX - cf {
                            return false;
                        }
                        t = t + ct;
                        f = f + cf;
                    },
                }
            }
            i = i + 1;
        }
        proof {
            assert(cs.take(i as int) =~= cs);
        }
        let mut sum: u64 = 0;
        let mut j: usize = 0;
        while j < entries.len()
            invariant
                j <= entries@.len(),
                sum == entries_file_bytes(entries@.take(j as int)),
                t == tree_total_seq(parent_links(cs)),
                t + entries_file_bytes(entries@.take(j as int)) <= u64::MAX
                    || t + entries_file_bytes(entries@) > u64::MAX,
            decreases entries@.len() - j,
        {
            proof {
                assert(entries@.take(j + 1).drop_last() =~= entries@.take(j as int));
                lemma_entries_prefix(entries@, j + 1);
            }
            if !entries[j].is_dir {
                if sum > u64::MAX - entries[j].size {
                    return false;
                }
                sum = sum + entries[j].size;
            }
            j = j + 1;
        }
        proof {
            assert(entries@.take(j as int) =~= entries@);
        }
        if t > u64::MAX - sum || (entries.len() as u64) > u64::MAX - f {
            return false;
        }
        true
    }
}

/// `n` is the `..` link of a local tree to the directory `parent`.
pub open spec fn parent_link(n: FileNode, parent: Seq<char>) -> bool {
    &&& n.name@ == ".."@
    &&& n.path@ == parent
    &&& n.is_dir
    &&& n.size == 0
    &&& n.mtime == 0
    &&& n.children@.len() == 0
    &&& !n.selected
    &&& n.expanded
    &&& !n.loaded
    &&& n.depth == 1
    &&& n.total_size == 0
    &&& n.file_count == 0
}

impl LocalScanner {
    /// The root of the local tree at `path`, shown as `PC (<shown>)`:
    /// expanded, not listed yet, and holding a `..` link to `parent` when the
    /// directory has one.
    pub fn tree_root(path: &str, shown: &str, parent: Option<&str>) -> (n: FileNode)
        ensures
            n.name@ == "PC ("@ + shown@ + ")"@,
            n.path@ == path@,
            n.is_dir,
            n.size == 0,
            n.mtime == 0,
            !n.selected,
            n.expanded,
            !n.loaded,
            n.depth == 0,
            n.total_size == 0,
            n.file_count == 0,
            parent is None ==> n.children@.len() == 0,
            parent matches Some(p) ==> n.children@.len() == 1 && parent_link(n.children@[0], p@),
    {
        let mut root = FileNode::root(path);
        let mut name = chars_of("PC (");
        append_vec(&mut name, &chars_of(shown));
        append_vec(&mut name, &chars_of(")"));
        root.name = string_of(&name);
        match parent {
            Some(p) => {
                let mut up = FileNode::root(p);
                up.name = owned("..");
                up.depth = 1;
                root.children.push(up);
            },
            None => {},
        }
        root
    }
}

} // verus!
